//! Repair decisions for the wires of a divided face: vertex sharing between
//! wires, and the removal of wires embedded in others.
use vstd::prelude::*;
use crate::classification::ShapesOpStatus;
use crate::open_loops::{count_of, is_closed_chain, closed_chain, lemma_count_of_exists};
use crate::topology::{EdgeUse, wire_vertices, wire_vertex_list, is_simple_wire, is_simple, lemma_flatten_new_step, lemma_push_contains};

verus! {

/// The wires as sequences.
pub open spec fn wires_view(ws: Seq<Vec<EdgeUse>>) -> Seq<Seq<EdgeUse>> {
    ws.map_values(|w: Vec<EdgeUse>| w@)
}

/// The set of vertices of a wire.
pub open spec fn vertex_set(w: Seq<EdgeUse>) -> Set<u64> {
    wire_vertices(w).to_set()
}

/// No vertex lies on two of the wires.
pub open spec fn disjoint_wires(ws: Seq<Seq<EdgeUse>>) -> bool {
    forall|i: int, j: int, v: u64|
        0 <= i < ws.len() && 0 <= j < ws.len() && i != j && #[trigger] wire_vertices(ws[i]).contains(v) ==> !#[trigger] wire_vertices(
            ws[j],
        ).contains(v)
}

/// Every vertex occurrence of the wires, wire by wire.
pub open spec fn vertex_occurrences(ws: Seq<Seq<EdgeUse>>) -> Seq<u64> {
    Seq::new(ws.len(), |i: int| wire_vertices(ws[i])).flatten()
}

/// Some vertex occurs three times or more among the wires.
pub open spec fn has_multiway_vertex(ws: Seq<Seq<EdgeUse>>) -> bool {
    exists|v: u64| #[trigger] count_of(vertex_occurrences(ws), v) >= 3
}

/// Wire `i` is embedded: its vertex set is a proper subset of another
/// wire's, strictly smaller.
pub open spec fn is_embedded(ws: Seq<Seq<EdgeUse>>, i: int) -> bool {
    exists|j: int|
        0 <= j < ws.len() && j != i && vertex_set(ws[i]).len() < vertex_set(#[trigger] ws[j]).len() && vertex_set(ws[i]).subset_of(
            vertex_set(ws[j]),
        )
}

/// The first `n` wires that are not embedded, in order.
pub open spec fn unembedded_upto(ws: Seq<Seq<EdgeUse>>, n: int) -> Seq<Seq<EdgeUse>>
    decreases n,
{
    if n <= 0 {
        Seq::empty()
    } else if is_embedded(ws, n - 1) {
        unembedded_upto(ws, n - 1)
    } else {
        unembedded_upto(ws, n - 1).push(ws[n - 1])
    }
}

/// The wires that are not embedded, in order.
pub open spec fn unembedded(ws: Seq<Seq<EdgeUse>>) -> Seq<Seq<EdgeUse>> {
    unembedded_upto(ws, ws.len() as int)
}

/// Every wire is simple and a closed chain.
pub open spec fn all_simple_closed(ws: Seq<Seq<EdgeUse>>) -> bool {
    forall|i: int| 0 <= i < ws.len() ==> is_simple_wire(#[trigger] ws[i]) && is_closed_chain(ws[i])
}

/// The retry that removing embedded wires offers a face whose wires share
/// vertices: when the wires are not disjoint, all simple and closed, and no
/// vertex occurs three times or more, the wires that are not embedded — if
/// some but not all remain.
pub open spec fn embedded_fix(ws: Seq<Seq<EdgeUse>>) -> Option<Seq<Seq<EdgeUse>>> {
    if !disjoint_wires(ws) && all_simple_closed(ws) && !has_multiway_vertex(ws) {
        let f = unembedded(ws);
        if f.len() > 0 && f.len() < ws.len() {
            Some(f)
        } else {
            None
        }
    } else {
        None
    }
}

/// The status of a divided face: that of its first wire with a decided
/// status, `Unknown` if none has one.
pub open spec fn first_decided(sts: Seq<ShapesOpStatus>) -> ShapesOpStatus
    decreases sts.len(),
{
    if sts.len() == 0 {
        ShapesOpStatus::Unknown
    } else if sts[0] != ShapesOpStatus::Unknown {
        sts[0]
    } else {
        first_decided(sts.drop_first())
    }
}

/// The status of a divided face from the statuses of its wires (see
/// `first_decided`).
pub fn pre_face_status(sts: &[ShapesOpStatus]) -> (r: ShapesOpStatus)
    ensures
        r == first_decided(sts@),
{
    let mut k: usize = 0;
    assert(sts@.skip(0) =~= sts@);
    while k < sts.len()
        invariant
            k <= sts@.len(),
            first_decided(sts@) == first_decided(sts@.skip(k as int)),
        decreases sts@.len() - k,
    {
        assert(sts@.skip(k as int).drop_first() =~= sts@.skip(k + 1));
        if sts[k] != ShapesOpStatus::Unknown {
            assert(sts@.skip(k as int)[0] == sts@[k as int]);
            return sts[k];
        }
        k = k + 1;
    }
    assert(sts@.skip(k as int).len() == 0);
    ShapesOpStatus::Unknown
}

/// Whether `x` occurs in `s`.
fn contains_u64(s: &Vec<u64>, x: u64) -> (r: bool)
    ensures
        r == s@.contains(x),
{
    let mut j: usize = 0;
    while j < s.len()
        invariant
            j <= s@.len(),
            forall|k: int| 0 <= k < j ==> s@[k] != x,
        decreases s@.len() - j,
    {
        if s[j] == x {
            return true;
        }
        j = j + 1;
    }
    false
}

/// Whether no vertex lies on two of the wires.
pub fn wires_are_disjoint(wires: &Vec<Vec<EdgeUse>>) -> (r: bool)
    ensures
        r == disjoint_wires(wires_view(wires@)),
{
    let ghost ws = wires_view(wires@);
    let mut lists: Vec<Vec<u64>> = Vec::new();
    let mut i: usize = 0;
    while i < wires.len()
        invariant
            ws == wires_view(wires@),
            i <= wires@.len(),
            lists@.len() == i,
            forall|a: int| 0 <= a < i ==> (#[trigger] lists@[a])@ == wire_vertices(ws[a]),
        decreases wires@.len() - i,
    {
        lists.push(wire_vertex_list(&wires[i]));
        i = i + 1;
    }
    let mut a: usize = 0;
    while a < lists.len()
        invariant
            ws == wires_view(wires@),
            lists@.len() == ws.len(),
            forall|x: int| 0 <= x < ws.len() ==> (#[trigger] lists@[x])@ == wire_vertices(ws[x]),
            a <= ws.len(),
            forall|i: int, j: int, v: u64|
                0 <= i < a && 0 <= j < ws.len() && i != j && #[trigger] wire_vertices(ws[i]).contains(v) ==> !#[trigger] wire_vertices(
                    ws[j],
                ).contains(v),
        decreases ws.len() - a,
    {
        let la = &lists[a];
        let mut b: usize = 0;
        while b < lists.len()
            invariant
                ws == wires_view(wires@),
                lists@.len() == ws.len(),
                forall|x: int| 0 <= x < ws.len() ==> (#[trigger] lists@[x])@ == wire_vertices(ws[x]),
                a < ws.len(),
                *la == lists@[a as int],
                b <= ws.len(),
                forall|i: int, j: int, v: u64|
                    0 <= i < a && 0 <= j < ws.len() && i != j && #[trigger] wire_vertices(ws[i]).contains(v) ==> !#[trigger] wire_vertices(
                        ws[j],
                    ).contains(v),
                forall|j: int, v: u64|
                    0 <= j < b && a != j && #[trigger] wire_vertices(ws[a as int]).contains(v) ==> !#[trigger] wire_vertices(ws[j]).contains(
                        v,
                    ),
            decreases ws.len() - b,
        {
            if a != b {
                let lb = &lists[b];
                let mut k: usize = 0;
                while k < la.len()
                    invariant
                        ws == wires_view(wires@),
                        a < ws.len(),
                        b < ws.len(),
                        a != b,
                        *la == lists@[a as int],
                        la@ == wire_vertices(ws[a as int]),
                        lb@ == wire_vertices(ws[b as int]),
                        k <= la@.len(),
                        forall|m: int| 0 <= m < k ==> !lb@.contains(#[trigger] la@[m]),
                    decreases la@.len() - k,
                {
                    if contains_u64(lb, la[k]) {
                        proof {
                            let v = la@[k as int];
                            assert(wire_vertices(ws[a as int]).contains(v));
                            assert(wire_vertices(ws[b as int]).contains(v));
                            assert(!disjoint_wires(ws));
                        }
                        return false;
                    }
                    k = k + 1;
                }
                proof {
                    assert forall|v: u64| #[trigger] wire_vertices(ws[a as int]).contains(v) implies !wire_vertices(ws[b as int]).contains(v) by {
                        let m = choose|m: int| 0 <= m < la@.len() && la@[m] == v;
                        assert(!lb@.contains(la@[m]));
                    }
                }
            }
            b = b + 1;
        }
        a = a + 1;
    }
    true
}

/// How many entries of `s` equal `v`.
fn count_in(s: &Vec<u64>, v: u64) -> (r: usize)
    ensures
        r == count_of(s@, v),
{
    let mut c: usize = 0;
    let mut i: usize = 0;
    while i < s.len()
        invariant
            i <= s@.len(),
            c == count_of(s@.take(i as int), v),
            c <= i,
        decreases s@.len() - i,
    {
        assert(s@.take(i + 1).drop_last() =~= s@.take(i as int));
        if s[i] == v {
            c = c + 1;
        }
        i = i + 1;
    }
    assert(s@.take(s@.len() as int) =~= s@);
    c
}

/// Every vertex occurrence of the wires, wire by wire.
fn occurrences(wires: &Vec<Vec<EdgeUse>>) -> (r: Vec<u64>)
    ensures
        r@ == vertex_occurrences(wires_view(wires@)),
{
    let ghost ws = wires_view(wires@);
    let mut out: Vec<u64> = Vec::new();
    let mut i: usize = 0;
    while i < wires.len()
        invariant
            ws == wires_view(wires@),
            i <= ws.len(),
            out@ == Seq::new(i as nat, |j: int| wire_vertices(ws[j])).flatten(),
        decreases ws.len() - i,
    {
        let vs = wire_vertex_list(&wires[i]);
        assert(vs@ == wire_vertices(ws[i as int]));
        let ghost base = out@;
        let mut k: usize = 0;
        while k < vs.len()
            invariant
                k <= vs@.len(),
                out@ == base + vs@.take(k as int),
            decreases vs@.len() - k,
        {
            out.push(vs[k]);
            assert(vs@.take(k + 1) =~= vs@.take(k as int).push(vs@[k as int]));
            k = k + 1;
        }
        assert(vs@.take(vs@.len() as int) =~= vs@);
        proof {
            lemma_flatten_new_step(i as nat, |j: int| wire_vertices(ws[j]));
        }
        i = i + 1;
    }
    out
}

/// Whether some vertex occurs three times or more among the wires.
pub fn has_multiway(wires: &Vec<Vec<EdgeUse>>) -> (r: bool)
    ensures
        r == has_multiway_vertex(wires_view(wires@)),
{
    let occ = occurrences(wires);
    let mut i: usize = 0;
    while i < occ.len()
        invariant
            occ@ == vertex_occurrences(wires_view(wires@)),
            i <= occ@.len(),
            forall|m: int| 0 <= m < i ==> count_of(occ@, #[trigger] occ@[m]) < 3,
        decreases occ@.len() - i,
    {
        if count_in(&occ, occ[i]) >= 3 {
            assert(count_of(vertex_occurrences(wires_view(wires@)), occ@[i as int]) >= 3);
            return true;
        }
        i = i + 1;
    }
    proof {
        assert forall|v: u64| #[trigger] count_of(occ@, v) < 3 by {
            if count_of(occ@, v) >= 3 {
                lemma_count_of_exists(occ@, v);
                let m = choose|m: int| 0 <= m < occ@.len() && occ@[m] == v;
                assert(count_of(occ@, occ@[m]) < 3);
            }
        }
    }
    false
}

/// The distinct vertices of a wire.
fn distinct_wire_vertices(w: &Vec<EdgeUse>) -> (r: Vec<u64>)
    ensures
        r@.no_duplicates(),
        forall|x: u64| r@.contains(x) <==> wire_vertices(w@).contains(x),
        r@.to_set() == vertex_set(w@),
        r@.len() == vertex_set(w@).len(),
{
    let vs = wire_vertex_list(w);
    let mut out: Vec<u64> = Vec::new();
    let mut i: usize = 0;
    while i < vs.len()
        invariant
            vs@ == wire_vertices(w@),
            i <= vs@.len(),
            out@.no_duplicates(),
            forall|x: u64| out@.contains(x) <==> vs@.take(i as int).contains(x),
        decreases vs@.len() - i,
    {
        let x = vs[i];
        assert(vs@.take(i + 1) =~= vs@.take(i as int).push(x));
        let ghost before = out@;
        if !contains_u64(&out, x) {
            out.push(x);
            proof {
                assert forall|a: int, b: int| 0 <= a < b < out@.len() implies out@[a] != out@[b] by {
                    if b == before.len() {
                        assert(before.contains(out@[a]));
                    } else {
                        assert(out@[a] == before[a] && out@[b] == before[b]);
                    }
                }
                assert forall|y: u64| out@.contains(y) <==> vs@.take(i + 1).contains(y) by {
                    lemma_push_contains(before, x, y);
                    lemma_push_contains(vs@.take(i as int), x, y);
                }
            }
        } else {
            proof {
                assert forall|y: u64| out@.contains(y) <==> vs@.take(i + 1).contains(y) by {
                    lemma_push_contains(vs@.take(i as int), x, y);
                }
            }
        }
        i = i + 1;
    }
    assert(vs@.take(vs@.len() as int) =~= vs@);
    proof {
        assert(out@.to_set() =~= vertex_set(w@));
        out@.unique_seq_to_set();
    }
    out
}

/// Whether every entry of `a` occurs in `b`.
fn all_in(a: &Vec<u64>, b: &Vec<u64>) -> (r: bool)
    ensures
        r == forall|x: u64| a@.contains(x) ==> b@.contains(x),
{
    let mut k: usize = 0;
    while k < a.len()
        invariant
            k <= a@.len(),
            forall|m: int| 0 <= m < k ==> b@.contains(#[trigger] a@[m]),
        decreases a@.len() - k,
    {
        if !contains_u64(b, a[k]) {
            assert(a@.contains(a@[k as int]));
            return false;
        }
        k = k + 1;
    }
    proof {
        assert forall|x: u64| a@.contains(x) implies b@.contains(x) by {
            let m = choose|m: int| 0 <= m < a@.len() && a@[m] == x;
            assert(b@.contains(a@[m]));
        }
    }
    true
}

/// The wires that are not embedded in another (see `is_embedded`), in order.
pub fn remove_embedded_wires(wires: &Vec<Vec<EdgeUse>>) -> (r: Vec<Vec<EdgeUse>>)
    ensures
        wires_view(r@) == unembedded(wires_view(wires@)),
{
    let ghost ws = wires_view(wires@);
    let mut sets: Vec<Vec<u64>> = Vec::new();
    let mut i: usize = 0;
    while i < wires.len()
        invariant
            ws == wires_view(wires@),
            i <= ws.len(),
            sets@.len() == i,
            forall|a: int|
                0 <= a < i ==> (#[trigger] sets@[a])@.to_set() == vertex_set(ws[a]) && sets@[a]@.len() == vertex_set(ws[a]).len(),
        decreases ws.len() - i,
    {
        sets.push(distinct_wire_vertices(&wires[i]));
        i = i + 1;
    }
    let mut out: Vec<Vec<EdgeUse>> = Vec::new();
    let mut a: usize = 0;
    while a < wires.len()
        invariant
            ws == wires_view(wires@),
            sets@.len() == ws.len(),
            forall|x: int|
                0 <= x < ws.len() ==> (#[trigger] sets@[x])@.to_set() == vertex_set(ws[x]) && sets@[x]@.len() == vertex_set(ws[x]).len(),
            a <= ws.len(),
            wires_view(out@) == unembedded_upto(ws, a as int),
        decreases ws.len() - a,
    {
        let sa = &sets[a];
        let mut embedded = false;
        let mut b: usize = 0;
        while b < wires.len() && !embedded
            invariant
                ws == wires_view(wires@),
                sets@.len() == ws.len(),
                forall|x: int|
                    0 <= x < ws.len() ==> (#[trigger] sets@[x])@.to_set() == vertex_set(ws[x]) && sets@[x]@.len() == vertex_set(
                        ws[x],
                    ).len(),
                a < ws.len(),
                *sa == sets@[a as int],
                b <= ws.len(),
                embedded ==> is_embedded(ws, a as int),
                !embedded ==> forall|j: int|
                    0 <= j < b && j != a ==> !(vertex_set(ws[a as int]).len() < vertex_set(#[trigger] ws[j]).len() && vertex_set(
                        ws[a as int],
                    ).subset_of(vertex_set(ws[j]))),
            decreases ws.len() - b,
        {
            if b != a && sa.len() < sets[b].len() {
                let sub = all_in(sa, &sets[b]);
                proof {
                    let sb = sets@[b as int]@;
                    assert(sub == vertex_set(ws[a as int]).subset_of(vertex_set(ws[b as int]))) by {
                        if sub {
                            assert forall|x: u64| vertex_set(ws[a as int]).contains(x) implies vertex_set(ws[b as int]).contains(x) by {
                                assert(sa@.to_set().contains(x));
                                assert(sb.to_set().contains(x));
                            }
                        } else {
                            let x = choose|x: u64| sa@.contains(x) && !sb.contains(x);
                            assert(sa@.to_set().contains(x));
                            assert(!sb.to_set().contains(x));
                        }
                    }
                }
                if sub {
                    embedded = true;
                }
            }
            b = b + 1;
        }
        proof {
            if !embedded {
                assert(!is_embedded(ws, a as int));
            }
        }
        if !embedded {
            let w = wires[a].clone();
            proof {
                assert(w@ == ws[a as int]) by {
                    assert(w@ =~= wires@[a as int]@);
                }
            }
            let ghost before = out@;
            out.push(w);
            assert(wires_view(out@) =~= wires_view(before).push(ws[a as int]));
        }
        a = a + 1;
    }
    out
}

/// Whether every wire is simple and a closed chain.
fn all_wires_simple_closed(wires: &Vec<Vec<EdgeUse>>) -> (r: bool)
    ensures
        r == all_simple_closed(wires_view(wires@)),
{
    let ghost ws = wires_view(wires@);
    let mut i: usize = 0;
    while i < wires.len()
        invariant
            ws == wires_view(wires@),
            i <= ws.len(),
            forall|j: int| 0 <= j < i ==> is_simple_wire(#[trigger] ws[j]) && is_closed_chain(ws[j]),
        decreases ws.len() - i,
    {
        assert(ws[i as int] == wires@[i as int]@);
        if !is_simple(&wires[i]) || !closed_chain(&wires[i]) {
            return false;
        }
        i = i + 1;
    }
    true
}

/// The wires to retry a face with after removing embedded ones (see
/// `embedded_fix`), if the fix applies.
pub fn embedded_wire_fix(wires: &Vec<Vec<EdgeUse>>) -> (r: Option<Vec<Vec<EdgeUse>>>)
    ensures
        r is Some <==> embedded_fix(wires_view(wires@)) is Some,
        r matches Some(f) ==> embedded_fix(wires_view(wires@)) == Some(wires_view(f@)),
{
    if wires_are_disjoint(wires) || !all_wires_simple_closed(wires) || has_multiway(wires) {
        return None;
    }
    let fixed = remove_embedded_wires(wires);
    assert(wires_view(fixed@).len() == fixed@.len());
    if fixed.len() > 0 && fixed.len() < wires.len() {
        Some(fixed)
    } else {
        None
    }
}

/// A biangle: a wire of two uses of one edge, once each way round. Such a
/// wire bounds nothing and is dropped before faces are built.
pub open spec fn is_biangle(w: Seq<EdgeUse>) -> bool {
    &&& w.len() == 2
    &&& w[0].edge == w[1].edge
    &&& w[0].forward != w[1].forward
}

/// Whether the wire is a biangle (see `is_biangle`).
pub fn is_biangle_wire(w: &Vec<EdgeUse>) -> (r: bool)
    ensures
        r == is_biangle(w@),
{
    w.len() == 2 && w[0].edge == w[1].edge && w[0].forward != w[1].forward
}

/// The first `n` wires without the biangles, in order.
pub open spec fn without_biangles_upto(ws: Seq<Seq<EdgeUse>>, n: int) -> Seq<Seq<EdgeUse>>
    decreases n,
{
    if n <= 0 {
        Seq::empty()
    } else if is_biangle(ws[n - 1]) {
        without_biangles_upto(ws, n - 1)
    } else {
        without_biangles_upto(ws, n - 1).push(ws[n - 1])
    }
}

/// The wires without the biangles, in order.
pub fn drop_biangle_wires(wires: &Vec<Vec<EdgeUse>>) -> (r: Vec<Vec<EdgeUse>>)
    ensures
        wires_view(r@) == without_biangles_upto(wires_view(wires@), wires@.len() as int),
{
    let ghost ws = wires_view(wires@);
    let mut out: Vec<Vec<EdgeUse>> = Vec::new();
    let mut i: usize = 0;
    while i < wires.len()
        invariant
            ws == wires_view(wires@),
            i <= wires@.len(),
            wires_view(out@) == without_biangles_upto(ws, i as int),
        decreases wires@.len() - i,
    {
        assert(wires@[i as int]@ == ws[i as int]);
        if !is_biangle_wire(&wires[i]) {
            let w = crate::topology::copy_wire(&wires[i]);
            out.push(w);
            assert(wires_view(out@) =~= without_biangles_upto(ws, i as int).push(ws[i as int]));
        }
        i = i + 1;
    }
    out
}

/// Uses `p` and `q` start at the same vertex, and `q` is the first use whose
/// start occurred before it.
pub open spec fn is_first_repeat(w: Seq<EdgeUse>, p: int, q: int) -> bool {
    &&& 0 <= p < q < w.len()
    &&& w[p].front == w[q].front
    &&& forall|a: int, b: int| 0 <= a < b < q ==> w[a].front != w[b].front
}

/// Some vertex starts two uses of the wire.
pub open spec fn has_repeat(w: Seq<EdgeUse>) -> bool {
    exists|a: int, b: int| 0 <= a < b < w.len() && w[a].front == w[b].front
}

/// The first repeat of a start vertex (see `is_first_repeat`).
pub open spec fn first_repeat(w: Seq<EdgeUse>) -> (int, int) {
    choose|pq: (int, int)| is_first_repeat(w, pq.0, pq.1)
}

/// The wire split at repeated vertices until every piece is simple: at the
/// first repeat (uses `p < q` starting at one vertex), the loop of uses
/// `p .. q` and the rest (uses before `p`, then from `q` on) are split in
/// turn, the loop's pieces first.
pub open spec fn split_simple(w: Seq<EdgeUse>) -> Seq<Seq<EdgeUse>>
    decreases w.len(),
{
    if has_repeat(w) {
        let (p, q) = first_repeat(w);
        if 0 <= p < q < w.len() {
            split_simple(w.subrange(p, q)) + split_simple(w.subrange(0, p) + w.subrange(q, w.len() as int))
        } else {
            seq![w]
        }
    } else {
        seq![w]
    }
}

proof fn lemma_first_repeat_exists(w: Seq<EdgeUse>, m: int)
    requires
        0 <= m <= w.len(),
        exists|a: int, b: int| 0 <= a < b < m && w[a].front == w[b].front,
    ensures
        exists|p: int, q: int| #[trigger] is_first_repeat(w, p, q),
    decreases m,
{
    if exists|a: int, b: int| 0 <= a < b < m - 1 && w[a].front == w[b].front {
        lemma_first_repeat_exists(w, m - 1);
    } else {
        let (a, b) = choose|a: int, b: int| 0 <= a < b < m && w[a].front == w[b].front;
        assert(b == m - 1);
        assert(is_first_repeat(w, a, b));
    }
}

proof fn lemma_first_repeat_unique(w: Seq<EdgeUse>, p: int, q: int, p2: int, q2: int)
    requires
        is_first_repeat(w, p, q),
        is_first_repeat(w, p2, q2),
    ensures
        p == p2 && q == q2,
{
    if q < q2 {
        assert(w[p].front != w[q].front);
    } else if q2 < q {
        assert(w[p2].front != w[q2].front);
    } else if p < p2 {
        assert(w[p].front != w[p2].front);
    } else if p2 < p {
        assert(w[p2].front != w[p].front);
    }
}

proof fn lemma_first_repeat_is(w: Seq<EdgeUse>, p: int, q: int)
    requires
        is_first_repeat(w, p, q),
    ensures
        has_repeat(w),
        first_repeat(w) == (p, q),
{
    assert(0 <= p < q < w.len() && w[p].front == w[q].front);
    assert(exists|pq: (int, int)| is_first_repeat(w, pq.0, pq.1)) by {
        assert(is_first_repeat(w, (p, q).0, (p, q).1));
    }
    let pq = first_repeat(w);
    assert(is_first_repeat(w, pq.0, pq.1));
    lemma_first_repeat_unique(w, p, q, pq.0, pq.1);
}

/// The pieces of a split closed wire are closed, simple, and hold its uses.
proof fn lemma_split_simple(w: Seq<EdgeUse>)
    requires
        is_closed_chain(w),
    ensures
        all_simple_closed(split_simple(w)),
        crate::gap_repair::pool(split_simple(w)).to_multiset() == w.to_multiset(),
    decreases w.len(),
{
    broadcast use vstd::seq_lib::lemma_multiset_commutative;
    if has_repeat(w) {
        let (a0, b0) = choose|a: int, b: int| 0 <= a < b < w.len() && w[a].front == w[b].front;
        lemma_first_repeat_exists(w, w.len() as int);
        let (p0, q0) = choose|p: int, q: int| #[trigger] is_first_repeat(w, p, q);
        lemma_first_repeat_is(w, p0, q0);
        let (p, q) = first_repeat(w);
        let n = w.len() as int;
        let a = w.subrange(p, q);
        let b = w.subrange(0, p) + w.subrange(q, n);
        assert(is_closed_chain(a)) by {
            assert forall|k: int| 0 <= k < a.len() - 1 implies #[trigger] a[k].back == a[k + 1].front by {
                assert(w[p + k].back == w[p + k + 1].front);
            }
            assert(w[q - 1].back == w[q].front);
        }
        assert(is_closed_chain(b)) by {
            assert forall|k: int| 0 <= k < b.len() - 1 implies #[trigger] b[k].back == b[k + 1].front by {
                if k < p - 1 {
                    assert(w[k].back == w[k + 1].front);
                } else if k == p - 1 {
                    assert(w[p - 1].back == w[p].front);
                } else {
                    let j = k - p + q;
                    assert(w[j].back == w[j + 1].front);
                }
            }
            if p == 0 {
                assert(b[0] == w[q]);
            } else {
                assert(b[0] == w[0]);
            }
            assert(b.last() == w[n - 1]);
        }
        lemma_split_simple(a);
        lemma_split_simple(b);
        let sa = split_simple(a);
        let sb = split_simple(b);
        assert(split_simple(w) == sa + sb);
        assert forall|i: int| 0 <= i < (sa + sb).len() implies is_simple_wire(#[trigger] (sa + sb)[i]) && is_closed_chain((sa + sb)[i]) by {
            if i < sa.len() {
                assert((sa + sb)[i] == sa[i]);
            } else {
                assert((sa + sb)[i] == sb[i - sa.len()]);
            }
        }
        vstd::seq_lib::lemma_flatten_concat(sa, sb);
        assert(crate::gap_repair::pool(sa + sb) =~= (sa + sb).flatten()) by {
            assert(Seq::new((sa + sb).len(), |i: int| (sa + sb)[i]) =~= sa + sb);
        }
        assert(crate::gap_repair::pool(sa) =~= sa.flatten()) by {
            assert(Seq::new(sa.len(), |i: int| sa[i]) =~= sa);
        }
        assert(crate::gap_repair::pool(sb) =~= sb.flatten()) by {
            assert(Seq::new(sb.len(), |i: int| sb[i]) =~= sb);
        }
        assert(w =~= w.subrange(0, p) + a + w.subrange(q, n));
        assert((w.subrange(0, p) + a + w.subrange(q, n)).to_multiset() == w.subrange(0, p).to_multiset().add(a.to_multiset()).add(
            w.subrange(q, n).to_multiset(),
        ));
        assert(b.to_multiset() == w.subrange(0, p).to_multiset().add(w.subrange(q, n).to_multiset()));
        assert(w.to_multiset() =~= a.to_multiset().add(b.to_multiset()));
    } else {
        assert(split_simple(w) == seq![w]);
        assert(is_simple_wire(w)) by {
            assert(wire_vertices(w) =~= w.map_values(|u: EdgeUse| u.front));
        }
        assert(crate::gap_repair::pool(seq![w]) =~= w) by {
            assert(Seq::new(1, |i: int| seq![w][i]) =~= seq![w]);
            assert(seq![w].flatten() =~= w + Seq::<Seq<EdgeUse>>::empty().flatten()) by {
                assert(seq![w].drop_first() =~= Seq::<Seq<EdgeUse>>::empty());
            }
        }
    }
}

/// The first repeat of a start vertex in the wire, if any.
fn find_first_repeat(w: &Vec<EdgeUse>) -> (r: Option<(usize, usize)>)
    ensures
        r is None ==> !has_repeat(w@),
        r matches Some((p, q)) ==> is_first_repeat(w@, p as int, q as int),
{
    let n = w.len();
    let mut q: usize = 0;
    while q < n
        invariant
            n == w@.len(),
            q <= n,
            forall|a: int, b: int| 0 <= a < b < q ==> w@[a].front != w@[b].front,
        decreases n - q,
    {
        let mut p: usize = 0;
        while p < q
            invariant
                n == w@.len(),
                p <= q < n,
                forall|a: int, b: int| 0 <= a < b < q ==> w@[a].front != w@[b].front,
                forall|a: int| 0 <= a < p ==> w@[a].front != w@[q as int].front,
            decreases q - p,
        {
            if w[p].front == w[q].front {
                return Some((p, q));
            }
            p = p + 1;
        }
        q = q + 1;
    }
    None
}

/// Splits a closed wire at its repeated vertices into simple closed wires
/// (see `split_simple`): every piece is closed and simple, and together they
/// hold the wire's uses, each once. A simple wire comes back alone.
pub fn split_wire_at_repeats(w: &Vec<EdgeUse>) -> (r: Vec<Vec<EdgeUse>>)
    requires
        is_closed_chain(w@),
    ensures
        wires_view(r@) == split_simple(w@),
        all_simple_closed(wires_view(r@)),
        crate::gap_repair::pool(wires_view(r@)).to_multiset() == w@.to_multiset(),
    decreases w@.len(),
{
    proof {
        lemma_split_simple(w@);
    }
    match find_first_repeat(w) {
        None => {
            let c = crate::topology::copy_wire(w);
            let mut out: Vec<Vec<EdgeUse>> = Vec::new();
            out.push(c);
            assert(wires_view(out@) =~= seq![w@]);
            out
        },
        Some((p, q)) => {
            proof {
                lemma_first_repeat_is(w@, p as int, q as int);
            }
            let n = w.len();
            let mut a: Vec<EdgeUse> = Vec::new();
            let mut k: usize = p;
            while k < q
                invariant
                    p <= k <= q,
                    q < n,
                    n == w@.len(),
                    a@ == w@.subrange(p as int, k as int),
                decreases q - k,
            {
                a.push(w[k]);
                assert(a@ =~= w@.subrange(p as int, k + 1));
                k = k + 1;
            }
            let mut b: Vec<EdgeUse> = Vec::new();
            let mut k: usize = 0;
            while k < p
                invariant
                    k <= p < q < n,
                    n == w@.len(),
                    b@ == w@.subrange(0, k as int),
                decreases p - k,
            {
                b.push(w[k]);
                assert(b@ =~= w@.subrange(0, k + 1));
                k = k + 1;
            }
            let mut k: usize = q;
            while k < n
                invariant
                    p < q <= k <= n,
                    n == w@.len(),
                    b@ == w@.subrange(0, p as int) + w@.subrange(q as int, k as int),
                decreases n - k,
            {
                b.push(w[k]);
                assert(b@ =~= w@.subrange(0, p as int) + w@.subrange(q as int, k + 1));
                k = k + 1;
            }
            proof {
                let (pp, qq) = first_repeat(w@);
                assert(pp == p && qq == q);
            }
            assert(is_closed_chain(a@)) by {
                assert forall|k: int| 0 <= k < a@.len() - 1 implies #[trigger] a@[k].back == a@[k + 1].front by {
                    assert(w@[p + k].back == w@[p + k + 1].front);
                }
                assert(w@[q - 1].back == w@[q as int].front);
            }
            assert(is_closed_chain(b@)) by {
                let bb = b@;
                assert forall|k: int| 0 <= k < bb.len() - 1 implies #[trigger] bb[k].back == bb[k + 1].front by {
                    if k < p - 1 {
                        assert(w@[k].back == w@[k + 1].front);
                    } else if k == p - 1 {
                        assert(w@[p - 1].back == w@[p as int].front);
                    } else {
                        let j = k - p + q;
                        assert(w@[j].back == w@[j + 1].front);
                    }
                }
                if p == 0 {
                    assert(bb[0] == w@[q as int]);
                } else {
                    assert(bb[0] == w@[0]);
                }
                assert(bb.last() == w@[n - 1]);
            }
            let mut ra = split_wire_at_repeats(&a);
            let mut rb = split_wire_at_repeats(&b);
            ra.append(&mut rb);
            proof {
                assert(wires_view(ra@) =~= split_simple(a@) + split_simple(b@));
            }
            ra
        },
    }
}

} // verus!
