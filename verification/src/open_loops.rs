//! The loops formed by the open edges of a shell: each open edge (used by one
//! face only) taken against the direction of that face, chained into closed
//! loops that a filling face can bound.
use vstd::prelude::*;
use crate::topology::{EdgeUse, FaceTopo, HalfEdgeRecord, half_edge_table, views, use_count, build_half_edge_table};
use crate::boundary_graph::lemma_distinct_below;

verus! {

/// The use of the same edge in the opposite direction.
pub open spec fn flip(u: EdgeUse) -> EdgeUse {
    EdgeUse { edge: u.edge, front: u.back, back: u.front, forward: !u.forward }
}

/// The uses among the first `n` records whose edge has no other use, in order.
pub open spec fn open_uses_upto(t: Seq<HalfEdgeRecord>, n: int) -> Seq<EdgeUse>
    decreases n,
{
    if n <= 0 {
        Seq::empty()
    } else {
        let prev = open_uses_upto(t, n - 1);
        if use_count(t, t[n - 1].edge_use.edge) == 1 {
            prev.push(t[n - 1].edge_use)
        } else {
            prev
        }
    }
}

/// The uses of open edges (edges used once only), in table order.
pub open spec fn open_uses(t: Seq<HalfEdgeRecord>) -> Seq<EdgeUse> {
    open_uses_upto(t, t.len() as int)
}

/// Whether use `u` starts or ends at vertex `v`.
pub open spec fn touches(u: EdgeUse, v: u64) -> bool {
    u.front == v || u.back == v
}

/// The number of ends at `v` among the first `n` uses.
pub open spec fn degree_upto(o: Seq<EdgeUse>, v: u64, n: int) -> nat
    decreases n,
{
    if n <= 0 {
        0
    } else {
        degree_upto(o, v, n - 1) + (if o[n - 1].front == v {
            1nat
        } else {
            0nat
        }) + (if o[n - 1].back == v {
            1nat
        } else {
            0nat
        })
    }
}

/// The number of ends at `v` among the uses.
pub open spec fn degree(o: Seq<EdgeUse>, v: u64) -> nat {
    degree_upto(o, v, o.len() as int)
}

/// Every vertex of the uses is an end of exactly two of them.
pub open spec fn all_degree_two(o: Seq<EdgeUse>) -> bool {
    forall|k: int| 0 <= k < o.len() ==> degree(o, (#[trigger] o[k]).front) == 2 && degree(o, o[k].back) == 2
}

/// A closed chain: nonempty, each use ends where the next begins, and the
/// last ends where the first begins.
pub open spec fn is_closed_chain(w: Seq<EdgeUse>) -> bool {
    &&& w.len() > 0
    &&& forall|k: int| #![trigger w[k].back] 0 <= k < w.len() - 1 ==> w[k].back == w[k + 1].front
    &&& w.last().back == w[0].front
}

/// `u` is one of the uses reversed.
pub open spec fn reversed_use_of(o: Seq<EdgeUse>, u: EdgeUse) -> bool {
    exists|j: int| 0 <= j < o.len() && u == flip(#[trigger] o[j])
}

/// The loops as sequences.
pub open spec fn loops_view(ls: Seq<Vec<EdgeUse>>) -> Seq<Seq<EdgeUse>> {
    ls.map_values(|v: Vec<EdgeUse>| v@)
}

/// `u` lies on one of the loops.
pub open spec fn on_some_loop(ls: Seq<Seq<EdgeUse>>, u: EdgeUse) -> bool {
    exists|l: int, k: int| 0 <= l < ls.len() && 0 <= k < ls[l].len() && #[trigger] ls[l][k] == u
}

pub(crate) proof fn lemma_use_count_pos(t: Seq<HalfEdgeRecord>, i: int)
    requires
        0 <= i < t.len(),
    ensures
        use_count(t, t[i].edge_use.edge) >= 1,
    decreases t.len(),
{
    if i < t.len() - 1 {
        lemma_use_count_pos(t.drop_last(), i);
    }
}

proof fn lemma_use_count_two(t: Seq<HalfEdgeRecord>, i: int, j: int)
    requires
        0 <= i < j < t.len(),
        t[i].edge_use.edge == t[j].edge_use.edge,
    ensures
        use_count(t, t[i].edge_use.edge) >= 2,
    decreases t.len(),
{
    if j == t.len() - 1 {
        lemma_use_count_pos(t.drop_last(), i);
    } else {
        lemma_use_count_two(t.drop_last(), i, j);
    }
}

proof fn lemma_open_uses_props(t: Seq<HalfEdgeRecord>, n: int)
    requires
        0 <= n <= t.len(),
    ensures
        forall|a: int|
            #![trigger open_uses_upto(t, n)[a]]
            0 <= a < open_uses_upto(t, n).len() ==> exists|m: int|
                0 <= m < n && #[trigger] t[m].edge_use == open_uses_upto(t, n)[a],
        forall|a: int, b: int|
            0 <= a < b < open_uses_upto(t, n).len() ==> #[trigger] open_uses_upto(t, n)[a].edge
                != #[trigger] open_uses_upto(t, n)[b].edge,
    decreases n,
{
    if n > 0 {
        lemma_open_uses_props(t, n - 1);
        let prev = open_uses_upto(t, n - 1);
        let cur = open_uses_upto(t, n);
        if use_count(t, t[n - 1].edge_use.edge) == 1 {
            assert forall|a: int| #![trigger cur[a]] 0 <= a < cur.len() implies exists|m: int|
                0 <= m < n && #[trigger] t[m].edge_use == cur[a] by {
                if a < prev.len() {
                    let m = choose|m: int| 0 <= m < n - 1 && #[trigger] t[m].edge_use == prev[a];
                    assert(t[m].edge_use == cur[a]);
                } else {
                    assert(t[n - 1].edge_use == cur[a]);
                }
            }
            assert forall|a: int, b: int| 0 <= a < b < cur.len() implies #[trigger] cur[a].edge != #[trigger] cur[b].edge by {
                if b < prev.len() {
                    assert(cur[a] == prev[a] && cur[b] == prev[b]);
                } else {
                    assert(cur[a] == prev[a]);
                    let m = choose|m: int| 0 <= m < n - 1 && #[trigger] t[m].edge_use == prev[a];
                    if t[m].edge_use.edge == t[n - 1].edge_use.edge {
                        lemma_use_count_two(t, m, n - 1);
                    }
                }
            }
        }
    }
}

/// The use of the same edge in the opposite direction.
pub(crate) fn flip_use(u: EdgeUse) -> (r: EdgeUse)
    ensures
        r == flip(u),
{
    EdgeUse { edge: u.edge, front: u.back, back: u.front, forward: !u.forward }
}

/// How many records use edge `e`.
fn count_uses(table: &Vec<HalfEdgeRecord>, e: u64) -> (r: usize)
    ensures
        r == use_count(table@, e),
{
    let mut c: usize = 0;
    let mut i: usize = 0;
    while i < table.len()
        invariant
            i <= table@.len(),
            c == use_count(table@.take(i as int), e),
            c <= i,
        decreases table@.len() - i,
    {
        assert(table@.take(i + 1).drop_last() =~= table@.take(i as int));
        if table[i].edge_use.edge == e {
            c = c + 1;
        }
        i = i + 1;
    }
    assert(table@.take(table@.len() as int) =~= table@);
    c
}

/// The uses of open edges, in table order.
fn open_use_list(table: &Vec<HalfEdgeRecord>) -> (r: Vec<EdgeUse>)
    ensures
        r@ == open_uses(table@),
{
    let mut out: Vec<EdgeUse> = Vec::new();
    let mut i: usize = 0;
    while i < table.len()
        invariant
            i <= table@.len(),
            out@ == open_uses_upto(table@, i as int),
        decreases table@.len() - i,
    {
        if count_uses(table, table[i].edge_use.edge) == 1 {
            out.push(table[i].edge_use);
        }
        i = i + 1;
    }
    out
}

proof fn lemma_degree_monotone(o: Seq<EdgeUse>, v: u64, m: int, n: int)
    requires
        0 <= m <= n <= o.len(),
    ensures
        degree_upto(o, v, m) <= degree_upto(o, v, n),
    decreases n - m,
{
    if m < n {
        lemma_degree_monotone(o, v, m, n - 1);
    }
}

/// Whether exactly two ends of the uses lie at `v`.
fn degree_is_two(o: &Vec<EdgeUse>, v: u64) -> (r: bool)
    ensures
        r == (degree(o@, v) == 2),
{
    let mut d: usize = 0;
    let mut i: usize = 0;
    while i < o.len()
        invariant
            i <= o@.len(),
            d == degree_upto(o@, v, i as int),
            d <= 2,
        decreases o@.len() - i,
    {
        if o[i].front == v {
            d = d + 1;
        }
        if o[i].back == v {
            if d == 2 {
                proof {
                    lemma_degree_monotone(o@, v, i + 1, o@.len() as int);
                }
                return false;
            }
            d = d + 1;
        }
        if d > 2 {
            proof {
                lemma_degree_monotone(o@, v, i + 1, o@.len() as int);
            }
            return false;
        }
        i = i + 1;
    }
    d == 2
}

/// The first use not yet taken that starts or ends at `c`.
pub(crate) fn first_unused_touching(o: &Vec<EdgeUse>, used: &Vec<bool>, c: u64) -> (r: Option<usize>)
    requires
        used@.len() == o@.len(),
    ensures
        r matches Some(k) ==> k < o@.len() && !used@[k as int] && touches(o@[k as int], c) && forall|j: int|
            0 <= j < k ==> used@[j] || !touches(o@[j], c),
        r is None ==> forall|j: int| 0 <= j < o@.len() ==> used@[j] || !touches(o@[j], c),
{
    let mut j: usize = 0;
    while j < o.len()
        invariant
            used@.len() == o@.len(),
            j <= o@.len(),
            forall|i: int| 0 <= i < j ==> used@[i] || !touches(o@[i], c),
        decreases o@.len() - j,
    {
        if !used[j] && (o[j].front == c || o[j].back == c) {
            return Some(j);
        }
        j = j + 1;
    }
    None
}

/// Whether the uses form a closed chain.
pub(crate) fn closed_chain(w: &Vec<EdgeUse>) -> (r: bool)
    ensures
        r == is_closed_chain(w@),
{
    if w.len() == 0 {
        return false;
    }
    let mut k: usize = 0;
    while k < w.len() - 1
        invariant
            w@.len() > 0,
            k < w@.len(),
            forall|i: int| #![trigger w@[i].back] 0 <= i < k ==> w@[i].back == w@[i + 1].front,
        decreases w@.len() - k,
    {
        if w[k].back != w[k + 1].front {
            return false;
        }
        k = k + 1;
    }
    w[w.len() - 1].back == w[0].front
}

/// How many entries of `s` equal `v`.
pub open spec fn count_of(s: Seq<u64>, v: u64) -> nat
    decreases s.len(),
{
    if s.len() == 0 {
        0
    } else {
        count_of(s.drop_last(), v) + if s.last() == v {
            1nat
        } else {
            0nat
        }
    }
}

/// The start vertices of the uses.
pub open spec fn fronts(o: Seq<EdgeUse>) -> Seq<u64> {
    o.map_values(|u: EdgeUse| u.front)
}

/// The end vertices of the uses.
pub open spec fn backs(o: Seq<EdgeUse>) -> Seq<u64> {
    o.map_values(|u: EdgeUse| u.back)
}

/// Each vertex of the uses starts exactly one of them and ends exactly one:
/// the uses form disjoint cycles, consistently oriented.
pub open spec fn consistently_oriented(o: Seq<EdgeUse>) -> bool {
    forall|k: int|
        0 <= k < o.len() ==> {
            &&& count_of(fronts(o), (#[trigger] o[k]).front) == 1
            &&& count_of(backs(o), o[k].front) == 1
            &&& count_of(fronts(o), o[k].back) == 1
            &&& count_of(backs(o), o[k].back) == 1
        }
}

proof fn lemma_count_of_pos(s: Seq<u64>, i: int)
    requires
        0 <= i < s.len(),
    ensures
        count_of(s, s[i]) >= 1,
    decreases s.len(),
{
    if i < s.len() - 1 {
        lemma_count_of_pos(s.drop_last(), i);
    }
}

proof fn lemma_count_of_unique(s: Seq<u64>, i: int, j: int)
    requires
        0 <= i < s.len(),
        0 <= j < s.len(),
        s[i] == s[j],
        count_of(s, s[i]) == 1,
    ensures
        i == j,
    decreases s.len(),
{
    if i != j {
        let (a, b) = if i < j { (i, j) } else { (j, i) };
        lemma_count_of_two(s, a, b);
    }
}

proof fn lemma_count_of_two(s: Seq<u64>, a: int, b: int)
    requires
        0 <= a < b < s.len(),
        s[a] == s[b],
    ensures
        count_of(s, s[a]) >= 2,
    decreases s.len(),
{
    if b == s.len() - 1 {
        lemma_count_of_pos(s.drop_last(), a);
    } else {
        lemma_count_of_two(s.drop_last(), a, b);
    }
}

pub(crate) proof fn lemma_count_of_exists(s: Seq<u64>, v: u64)
    requires
        count_of(s, v) >= 1,
    ensures
        exists|j: int| 0 <= j < s.len() && s[j] == v,
    decreases s.len(),
{
    if s.last() != v {
        lemma_count_of_exists(s.drop_last(), v);
        let j = choose|j: int| 0 <= j < s.len() - 1 && s.drop_last()[j] == v;
        assert(s[j] == v);
    } else {
        assert(s[s.len() - 1] == v);
    }
}

proof fn lemma_degree_counts(o: Seq<EdgeUse>, v: u64, n: int)
    requires
        0 <= n <= o.len(),
    ensures
        degree_upto(o, v, n) == count_of(fronts(o).take(n), v) + count_of(backs(o).take(n), v),
    decreases n,
{
    if n > 0 {
        lemma_degree_counts(o, v, n - 1);
        assert(fronts(o).take(n).drop_last() =~= fronts(o).take(n - 1));
        assert(backs(o).take(n).drop_last() =~= backs(o).take(n - 1));
    } else {
        assert(fronts(o).take(0) =~= Seq::<u64>::empty());
        assert(backs(o).take(0) =~= Seq::<u64>::empty());
    }
}

proof fn lemma_consistent_degree_two(o: Seq<EdgeUse>)
    requires
        consistently_oriented(o),
    ensures
        all_degree_two(o),
{
    assert forall|k: int| 0 <= k < o.len() implies degree(o, (#[trigger] o[k]).front) == 2 && degree(o, o[k].back) == 2 by {
        lemma_degree_counts(o, o[k].front, o.len() as int);
        lemma_degree_counts(o, o[k].back, o.len() as int);
        assert(fronts(o).take(o.len() as int) =~= fronts(o));
        assert(backs(o).take(o.len() as int) =~= backs(o));
    }
}

/// The use that ends where use `k` starts (unique when the uses are
/// consistently oriented).
proof fn lemma_pred_use(o: Seq<EdgeUse>, k: int) -> (j: int)
    requires
        consistently_oriented(o),
        0 <= k < o.len(),
    ensures
        0 <= j < o.len(),
        o[j].back == o[k].front,
        forall|i: int| 0 <= i < o.len() && o[i].back == o[k].front ==> i == j,
{
    assert(count_of(backs(o), o[k].front) == 1);
    lemma_count_of_exists(backs(o), o[k].front);
    let j = choose|j: int| 0 <= j < backs(o).len() && backs(o)[j] == o[k].front;
    assert forall|i: int| 0 <= i < o.len() && o[i].back == o[k].front implies i == j by {
        assert(backs(o)[i] == o[i].back);
        lemma_count_of_unique(backs(o), i, j);
    }
    j
}

proof fn lemma_same_front(o: Seq<EdgeUse>, i: int, j: int)
    requires
        consistently_oriented(o),
        0 <= i < o.len(),
        0 <= j < o.len(),
        o[i].front == o[j].front,
    ensures
        i == j,
{
    assert(count_of(fronts(o), o[i].front) == 1);
    assert(fronts(o)[i] == o[i].front);
    assert(fronts(o)[j] == o[j].front);
    lemma_count_of_unique(fronts(o), i, j);
}

proof fn lemma_same_back(o: Seq<EdgeUse>, i: int, j: int)
    requires
        consistently_oriented(o),
        0 <= i < o.len(),
        0 <= j < o.len(),
        o[i].back == o[j].back,
    ensures
        i == j,
{
    assert(count_of(backs(o), o[i].back) == 1);
    assert(backs(o)[i] == o[i].back);
    assert(backs(o)[j] == o[j].back);
    lemma_count_of_unique(backs(o), i, j);
}

/// The open uses of a list of faces.
pub open spec fn face_open_uses(faces: Seq<FaceTopo>) -> Seq<EdgeUse> {
    open_uses(half_edge_table(views(faces)))
}

/// `widx` is a walk of open uses taken against their direction from `start`:
/// each next use ends (in the open direction) where the previous one starts.
pub open spec fn walk_chain(o: Seq<EdgeUse>, widx: Seq<usize>, start: usize) -> bool {
    &&& widx.len() >= 1
    &&& widx[0] == start
    &&& forall|i: int| #![trigger widx[i]] 1 <= i < widx.len() ==> o[widx[i] as int].back == o[widx[i - 1] as int].front
}

/// The taken uses are closed under predecessors: a use that ends where a
/// taken use starts... is taken too.
pub open spec fn pred_closed(o: Seq<EdgeUse>, used: Seq<bool>) -> bool {
    forall|j: int, p: int|
        0 <= j < o.len() && 0 <= p < o.len() && #[trigger] used[j] && #[trigger] o[p].front == o[j].back ==> used[p]
}

proof fn lemma_walk_cannot_stick(
    o: Seq<EdgeUse>,
    used0: Seq<bool>,
    used: Seq<bool>,
    widx: Seq<usize>,
    start: usize,
    current: u64,
) -> (p: int)
    requires
        consistently_oriented(o),
        used.len() == o.len(),
        used0.len() == o.len(),
        o.len() <= usize::MAX,
        pred_closed(o, used0),
        walk_chain(o, widx, start),
        widx.no_duplicates(),
        forall|k: int| 0 <= k < widx.len() ==> #[trigger] widx[k] < o.len() && !used0[widx[k] as int] && used[widx[k] as int],
        forall|j: int| 0 <= j < o.len() && used[j] ==> used0[j] || widx.contains(j as usize),
        current == o[widx.last() as int].front,
        current != o[start as int].back,
    ensures
        0 <= p < o.len(),
        !used[p],
        o[p].back == current,
        forall|i: int| 0 <= i < o.len() && !used[i] && touches(o[i], current) ==> i == p,
{
    let last = widx.last() as int;
    assert(widx[widx.len() - 1] < o.len());
    let p = lemma_pred_use(o, last);
    if used[p] {
        if widx.contains(p as usize) {
            let i = choose|i: int| 0 <= i < widx.len() && widx[i] == p as usize;
            assert(widx[i] as int == p);
            if i == 0 {
                assert(widx[0] == start);
                assert(o[start as int].back == current);
            } else {
                assert(o[widx[i] as int].back == o[widx[i - 1] as int].front);
                assert(widx[i - 1] < o.len());
                assert(o[widx[i - 1] as int].front == o[last].front);
                lemma_same_front(o, widx[i - 1] as int, last);
                assert(widx[i - 1] == widx[widx.len() - 1]);
            }
        } else {
            assert(used0[p]);
            assert(used0[last]);
        }
    }
    assert forall|i: int| 0 <= i < o.len() && !used[i] && touches(o[i], current) implies i == p by {
        if o[i].front == current {
            lemma_same_front(o, i, last);
            assert(widx.contains(widx[widx.len() - 1]));
        } else {
            lemma_same_back(o, i, p);
        }
    }
    p
}

proof fn lemma_walk_closes(
    o: Seq<EdgeUse>,
    used0: Seq<bool>,
    used: Seq<bool>,
    widx: Seq<usize>,
    start: usize,
    edges: Seq<EdgeUse>,
)
    requires
        consistently_oriented(o),
        o.len() <= usize::MAX,
        used.len() == o.len(),
        used0.len() == o.len(),
        pred_closed(o, used0),
        walk_chain(o, widx, start),
        widx.len() == edges.len(),
        forall|k: int| 0 <= k < widx.len() ==> #[trigger] widx[k] < o.len() && used[widx[k] as int] && edges[k] == flip(o[widx[k] as int]),
        forall|j: int| 0 <= j < o.len() && used[j] ==> used0[j] || widx.contains(j as usize),
        forall|j: int| 0 <= j < o.len() && used0[j] ==> used[j],
        o[widx.last() as int].front == o[start as int].back,
    ensures
        is_closed_chain(edges),
        pred_closed(o, used),
{
    assert(widx[0] < o.len());
    assert(widx[widx.len() - 1] < o.len());
    assert forall|k: int| #![trigger edges[k].back] 0 <= k < edges.len() - 1 implies edges[k].back == edges[k + 1].front by {
        assert(widx[k] < o.len() && widx[k + 1] < o.len());
        assert(o[widx[k + 1] as int].back == o[widx[k] as int].front);
    }
    assert forall|j: int, p: int|
        0 <= j < o.len() && 0 <= p < o.len() && #[trigger] used[j] && #[trigger] o[p].front == o[j].back implies used[p] by {
        if used0[j] {
            assert(used0[p]);
        } else {
            let i = choose|i: int| 0 <= i < widx.len() && widx[i] == j as usize;
            assert(widx[i] as int == j);
            if i == 0 {
                assert(widx[0] == start);
                assert(o[p].front == o[widx.last() as int].front);
                lemma_same_front(o, p, widx.last() as int);
                assert(used[widx[widx.len() - 1] as int]);
            } else {
                assert(widx[i] < o.len() && widx[i - 1] < o.len());
                assert(o[widx[i] as int].back == o[widx[i - 1] as int].front);
                assert(o[p].front == o[widx[i - 1] as int].front);
                lemma_same_front(o, p, widx[i - 1] as int);
                assert(used[widx[i - 1] as int]);
            }
        }
    }
}

/// The reversed uses at the indices `wi`.
pub open spec fn walk_uses(o: Seq<EdgeUse>, wi: Seq<usize>) -> Seq<EdgeUse> {
    Seq::new(wi.len(), |k: int| flip(o[wi[k] as int]))
}

/// Use `j` lies on one of the walks.
pub open spec fn on_walk(walks: Seq<Seq<usize>>, j: int) -> bool {
    exists|w: int, k: int| 0 <= w < walks.len() && 0 <= k < walks[w].len() && #[trigger] walks[w][k] == j
}

/// Use `k` of the walk goes on from the previous one: the walk is not back
/// at its start vertex, and the use touches the vertex reached.
pub open spec fn walk_goes_on(o: Seq<EdgeUse>, wi: Seq<usize>, k: int) -> bool {
    &&& o[wi[k - 1] as int].front != o[wi[0] as int].back
    &&& touches(o[wi[k] as int], o[wi[k - 1] as int].front)
}

/// The walks over the open uses `o`, in the order they were made: every use
/// lies on exactly one walk; each walk starts with the first use on no
/// earlier walk; each next use is the first one not yet taken that touches
/// the vertex reached (the start of the previous use), while that vertex is
/// not the walk's start vertex (the end of its first use); and a walk stops
/// at its start vertex, or where no use not yet taken touches the vertex
/// reached.
pub open spec fn open_walks(o: Seq<EdgeUse>, walks: Seq<Seq<usize>>) -> bool {
    &&& forall|w: int| 0 <= w < walks.len() ==> (#[trigger] walks[w]).len() > 0
    &&& forall|w: int, k: int| 0 <= w < walks.len() && 0 <= k < walks[w].len() ==> #[trigger] walks[w][k] < o.len()
    &&& forall|w1: int, k1: int, w2: int, k2: int|
        0 <= w1 < walks.len() && 0 <= k1 < walks[w1].len() && 0 <= w2 < walks.len() && 0 <= k2 < walks[w2].len() && (w1 != w2
            || k1 != k2) ==> #[trigger] walks[w1][k1] != #[trigger] walks[w2][k2]
    &&& forall|j: int| 0 <= j < o.len() ==> #[trigger] on_walk(walks, j)
    &&& forall|w: int, k: int| 0 <= w < walks.len() && 1 <= k < walks[w].len() ==> #[trigger] walk_goes_on(o, walks[w], k)
    &&& forall|w: int, w2: int, k2: int|
        #![trigger walks[w][0], walks[w2][k2]]
        0 <= w < walks.len() && 0 <= w2 < walks.len() && 0 <= k2 < walks[w2].len() && walks[w2][k2] < walks[w][0] ==> w2 < w
    &&& forall|w: int, k: int, w2: int, k2: int|
        #![trigger walks[w][k], walks[w2][k2]]
        0 <= w < walks.len() && 1 <= k < walks[w].len() && 0 <= w2 < walks.len() && 0 <= k2 < walks[w2].len()
            && walks[w2][k2] < walks[w][k] && touches(o[walks[w2][k2] as int], o[walks[w][k - 1] as int].front) ==> w2 < w
            || (w2 == w && k2 < k)
    &&& forall|w: int, w2: int, k2: int|
        #![trigger walks[w], walks[w2][k2]]
        0 <= w < walks.len() && 0 <= w2 < walks.len() && 0 <= k2 < walks[w2].len() && o[walks[w].last() as int].front
            != o[walks[w][0] as int].back && touches(o[walks[w2][k2] as int], o[walks[w].last() as int].front) ==> w2 <= w
}

/// The walks among the first `n` that close, as closed chains of reversed
/// uses, in order.
pub open spec fn kept_walks(o: Seq<EdgeUse>, walks: Seq<Seq<usize>>, n: int) -> Seq<Seq<EdgeUse>>
    decreases n,
{
    if n <= 0 {
        Seq::empty()
    } else {
        let prev = kept_walks(o, walks, n - 1);
        if is_closed_chain(walk_uses(o, walks[n - 1])) {
            prev.push(walk_uses(o, walks[n - 1]))
        } else {
            prev
        }
    }
}

/// `ls` are the loops that the walks over the open uses `o` close.
pub open spec fn loops_of(o: Seq<EdgeUse>, ls: Seq<Seq<EdgeUse>>) -> bool {
    exists|walks: Seq<Seq<usize>>| #[trigger] open_walks(o, walks) && ls == kept_walks(o, walks, walks.len() as int)
}

/// What one walk from use `start` does: it takes the uses at `wi` (none taken
/// before, in `u0`), recorded in `u1`, each chosen as a walk chooses, and
/// stops at its start vertex or, `stuck`, where no use not yet taken touches
/// the vertex reached.
pub open spec fn open_walk_step(o: Seq<EdgeUse>, u0: Seq<bool>, u1: Seq<bool>, start: int, wi: Seq<usize>, stuck: bool) -> bool {
    &&& u1.len() == o.len()
    &&& wi.len() > 0
    &&& wi[0] == start
    &&& wi.no_duplicates()
    &&& forall|k: int| 0 <= k < wi.len() ==> #[trigger] wi[k] < o.len() && !u0[wi[k] as int]
    &&& forall|j: int| 0 <= j < o.len() ==> (u1[j] <==> u0[j] || wi.contains(j as usize))
    &&& forall|k: int| 1 <= k < wi.len() ==> #[trigger] walk_goes_on(o, wi, k)
    &&& forall|k: int, i: int|
        #![trigger wi[k], o[i]]
        1 <= k < wi.len() && 0 <= i < wi[k] && touches(o[i], o[wi[k - 1] as int].front) ==> u1[i]
    &&& forall|k: int, k2: int|
        #![trigger wi[k], wi[k2]]
        1 <= k < wi.len() && 0 <= k2 < wi.len() && wi[k2] < wi[k] && touches(o[wi[k2] as int], o[wi[k - 1] as int].front) ==> k2 < k
    &&& stuck == (o[wi.last() as int].front != o[start].back)
    &&& stuck ==> forall|j: int| 0 <= j < o.len() && #[trigger] touches(o[j], o[wi.last() as int].front) ==> u1[j]
}

/// What the walks so far have done: the walks `walks`, each recorded in
/// `used`, made as `open_walks` says; every use that a choice or a stop
/// passed over is taken.
pub open spec fn walks_built(o: Seq<EdgeUse>, walks: Seq<Seq<usize>>, used: Seq<bool>) -> bool {
    &&& forall|w: int| 0 <= w < walks.len() ==> (#[trigger] walks[w]).len() > 0
    &&& forall|w: int, k: int|
        0 <= w < walks.len() && 0 <= k < walks[w].len() ==> #[trigger] walks[w][k] < o.len() && used[walks[w][k] as int]
    &&& forall|w1: int, k1: int, w2: int, k2: int|
        0 <= w1 < walks.len() && 0 <= k1 < walks[w1].len() && 0 <= w2 < walks.len() && 0 <= k2 < walks[w2].len() && (w1 != w2
            || k1 != k2) ==> #[trigger] walks[w1][k1] != #[trigger] walks[w2][k2]
    &&& forall|j: int| 0 <= j < o.len() && used[j] ==> #[trigger] on_walk(walks, j)
    &&& forall|w: int, k: int| 0 <= w < walks.len() && 1 <= k < walks[w].len() ==> #[trigger] walk_goes_on(o, walks[w], k)
    &&& forall|w: int, w2: int, k2: int|
        #![trigger walks[w][0], walks[w2][k2]]
        0 <= w < walks.len() && 0 <= w2 < walks.len() && 0 <= k2 < walks[w2].len() && walks[w2][k2] < walks[w][0] ==> w2 < w
    &&& forall|w: int, k: int, w2: int, k2: int|
        #![trigger walks[w][k], walks[w2][k2]]
        0 <= w < walks.len() && 1 <= k < walks[w].len() && 0 <= w2 < walks.len() && 0 <= k2 < walks[w2].len()
            && walks[w2][k2] < walks[w][k] && touches(o[walks[w2][k2] as int], o[walks[w][k - 1] as int].front) ==> w2 < w
            || (w2 == w && k2 < k)
    &&& forall|w: int, w2: int, k2: int|
        #![trigger walks[w], walks[w2][k2]]
        0 <= w < walks.len() && 0 <= w2 < walks.len() && 0 <= k2 < walks[w2].len() && o[walks[w].last() as int].front
            != o[walks[w][0] as int].back && touches(o[walks[w2][k2] as int], o[walks[w].last() as int].front) ==> w2 <= w
    &&& forall|w: int, i: int| #![trigger walks[w][0], o[i]] 0 <= w < walks.len() && 0 <= i < walks[w][0] ==> used[i]
    &&& forall|w: int, k: int, i: int|
        #![trigger walks[w][k], o[i]]
        0 <= w < walks.len() && 1 <= k < walks[w].len() && 0 <= i < walks[w][k] && touches(o[i], o[walks[w][k - 1] as int].front)
            ==> used[i]
    &&& forall|w: int, i: int|
        #![trigger walks[w], o[i]]
        0 <= w < walks.len() && 0 <= i < o.len() && o[walks[w].last() as int].front != o[walks[w][0] as int].back && touches(
            o[i],
            o[walks[w].last() as int].front,
        ) ==> used[i]
}

proof fn lemma_walks_push(o: Seq<EdgeUse>, walks: Seq<Seq<usize>>, u0: Seq<bool>, u1: Seq<bool>, start: int, wi: Seq<usize>, stuck: bool)
    requires
        walks_built(o, walks, u0),
        open_walk_step(o, u0, u1, start, wi, stuck),
        u0.len() == o.len(),
        o.len() <= usize::MAX,
        0 <= start < o.len(),
        forall|j: int| 0 <= j < start ==> u0[j],
    ensures
        walks_built(o, walks.push(wi), u1),
{
    let nw = walks.push(wi);
    let m = walks.len() as int;
    assert(nw[m] == wi);
    assert forall|w: int| 0 <= w < m implies nw[w] == walks[w] by {}
    assert forall|j: int| 0 <= j < o.len() && u0[j] implies u1[j] by {}
    assert forall|w: int, k: int| 0 <= w < nw.len() && 0 <= k < nw[w].len() implies #[trigger] nw[w][k] < o.len() && u1[nw[w][k] as int] by {
        if w < m {
            assert(nw[w][k] == walks[w][k]);
        } else {
            assert(wi.contains(wi[k]));
        }
    }
    assert forall|w1: int, k1: int, w2: int, k2: int|
        0 <= w1 < nw.len() && 0 <= k1 < nw[w1].len() && 0 <= w2 < nw.len() && 0 <= k2 < nw[w2].len() && (w1 != w2 || k1 != k2)
            implies #[trigger] nw[w1][k1] != #[trigger] nw[w2][k2] by {
        if w1 < m && w2 < m {
            assert(nw[w1][k1] == walks[w1][k1] && nw[w2][k2] == walks[w2][k2]);
        } else if w1 < m {
            assert(u0[walks[w1][k1] as int]);
            assert(!u0[wi[k2] as int]);
        } else if w2 < m {
            assert(u0[walks[w2][k2] as int]);
            assert(!u0[wi[k1] as int]);
        }
    }
    assert forall|j: int| 0 <= j < o.len() && u1[j] implies #[trigger] on_walk(nw, j) by {
        if u0[j] {
            assert(on_walk(walks, j));
            let (w, k) = choose|w: int, k: int| 0 <= w < walks.len() && 0 <= k < walks[w].len() && #[trigger] walks[w][k] == j;
            assert(nw[w][k] == j);
        } else {
            assert(wi.contains(j as usize));
            let k = choose|k: int| 0 <= k < wi.len() && wi[k] == j as usize;
            assert(nw[m][k] == j);
        }
    }
    assert forall|w: int, k: int| 0 <= w < nw.len() && 1 <= k < nw[w].len() implies #[trigger] walk_goes_on(o, nw[w], k) by {
        if w < m {
            assert(walk_goes_on(o, walks[w], k));
        } else {
            assert(walk_goes_on(o, wi, k));
        }
    }
    assert forall|w: int, w2: int, k2: int|
        #![trigger nw[w][0], nw[w2][k2]]
        0 <= w < nw.len() && 0 <= w2 < nw.len() && 0 <= k2 < nw[w2].len() && nw[w2][k2] < nw[w][0] implies w2 < w by {
        if w < m && w2 < m {
            assert(walks[w][0] == nw[w][0] && walks[w2][k2] == nw[w2][k2]);
        } else if w < m {
            assert(o[wi[k2] as int] == o[wi[k2] as int]);
            assert(u0[wi[k2] as int]);
        } else if w2 == m {
            assert(u0[wi[k2] as int]);
        }
    }
    assert forall|w: int, k: int, w2: int, k2: int|
        #![trigger nw[w][k], nw[w2][k2]]
        0 <= w < nw.len() && 1 <= k < nw[w].len() && 0 <= w2 < nw.len() && 0 <= k2 < nw[w2].len() && nw[w2][k2] < nw[w][k]
            && touches(o[nw[w2][k2] as int], o[nw[w][k - 1] as int].front) implies w2 < w || (w2 == w && k2 < k) by {
        if w < m && w2 < m {
            assert(walks[w][k] == nw[w][k] && walks[w2][k2] == nw[w2][k2]);
        } else if w < m {
            assert(walks[w][k] == nw[w][k]);
            assert(o[wi[k2] as int] == o[wi[k2] as int]);
            assert(u0[wi[k2] as int]);
        } else if w2 == m {
            assert(wi[k] == wi[k] && wi[k2] == wi[k2]);
        }
    }
    assert forall|w: int, w2: int, k2: int|
        #![trigger nw[w], nw[w2][k2]]
        0 <= w < nw.len() && 0 <= w2 < nw.len() && 0 <= k2 < nw[w2].len() && o[nw[w].last() as int].front != o[nw[w][0] as int].back
            && touches(o[nw[w2][k2] as int], o[nw[w].last() as int].front) implies w2 <= w by {
        if w < m && w2 == m {
            assert(nw[w] == walks[w]);
            assert(o[wi[k2] as int] == o[wi[k2] as int]);
            assert(u0[wi[k2] as int]);
        } else if w < m && w2 < m {
            assert(nw[w] == walks[w] && nw[w2][k2] == walks[w2][k2]);
        }
    }
    assert forall|w: int, i: int| #![trigger nw[w][0], o[i]] 0 <= w < nw.len() && 0 <= i < nw[w][0] implies u1[i] by {
        if w < m {
            assert(walks[w][0] == nw[w][0]);
        }
    }
    assert forall|w: int, k: int, i: int|
        #![trigger nw[w][k], o[i]]
        0 <= w < nw.len() && 1 <= k < nw[w].len() && 0 <= i < nw[w][k] && touches(o[i], o[nw[w][k - 1] as int].front) implies u1[i] by {
        if w < m {
            assert(walks[w][k] == nw[w][k]);
        } else {
            assert(wi[k] == wi[k]);
        }
    }
    assert forall|w: int, i: int|
        #![trigger nw[w], o[i]]
        0 <= w < nw.len() && 0 <= i < o.len() && o[nw[w].last() as int].front != o[nw[w][0] as int].back && touches(
            o[i],
            o[nw[w].last() as int].front,
        ) implies u1[i] by {
        if w < m {
            assert(nw[w] == walks[w]);
        } else {
            assert(nw[w] == wi);
        }
    }
}

/// Walks from open use `start` (not yet taken): takes it reversed, then at the
/// current end the first open use not yet taken that touches it, reversed,
/// until the walk returns to the start vertex or finds none (stuck). Returns
/// the reversed uses taken, whether it got stuck, and their indices.
fn walk_open_uses(open: &Vec<EdgeUse>, used: &mut Vec<bool>, start: usize) -> (r: (Vec<EdgeUse>, bool, Ghost<Seq<usize>>))
    requires
        old(used)@.len() == open@.len(),
        start < open@.len(),
        !old(used)@[start as int],
    ensures
        final(used)@.len() == open@.len(),
        r.2@.len() == r.0@.len(),
        r.2@.len() >= 1,
        r.2@[0] == start,
        r.2@.no_duplicates(),
        forall|k: int|
            0 <= k < r.2@.len() ==> #[trigger] r.2@[k] < open@.len() && !old(used)@[r.2@[k] as int] && final(used)@[r.2@[k] as int]
                && r.0@[k] == flip(open@[r.2@[k] as int]),
        forall|j: int| 0 <= j < open@.len() && old(used)@[j] ==> final(used)@[j],
        forall|j: int| 0 <= j < open@.len() && final(used)@[j] ==> old(used)@[j] || r.2@.contains(j as usize),
        consistently_oriented(open@) && pred_closed(open@, old(used)@) ==> !r.1 && walk_chain(open@, r.2@, start)
            && open@[r.2@.last() as int].front == open@[start as int].back,
        open_walk_step(open@, old(used)@, final(used)@, start as int, r.2@, r.1),
        r.0@ == walk_uses(open@, r.2@),
{
    let ghost o = open@;
    let ghost fresh = consistently_oriented(o);
    let n = open.len();
    let ghost used0 = used@;
    let first = flip_use(open[start]);
    let start_vid = first.front;
    let mut current = first.back;
    used.set(start, true);
    let mut edges: Vec<EdgeUse> = Vec::new();
    edges.push(first);
    let ghost mut widx: Seq<usize> = seq![start];
    proof {
        assert(widx[0] == start);
        assert forall|j: int| 0 <= j < n implies (used@[j] <==> used0[j] || widx.contains(j as usize)) by {
            if j == start as int {
                assert(widx[0] == j as usize);
            }
        }
    }
    let mut stuck = false;
    while current != start_vid && !stuck
        invariant
            n == o.len(),
            open@ == o,
            fresh == consistently_oriented(o),
            start < n,
            start_vid == o[start as int].back,
            used@.len() == n,
            used0.len() == n,
            !used0[start as int],
            widx.len() == edges@.len(),
            walk_chain(o, widx, start) || !(fresh && pred_closed(o, used0)),
            widx.len() >= 1,
            widx[0] == start,
            widx.no_duplicates(),
            forall|k: int| 0 <= k < widx.len() ==> #[trigger] widx[k] < n && !used0[widx[k] as int] && used@[widx[k] as int]
                && edges@[k] == flip(o[widx[k] as int]),
            forall|j: int| 0 <= j < n && used0[j] ==> used@[j],
            forall|j: int| 0 <= j < n && used@[j] ==> used0[j] || widx.contains(j as usize),
            widx.len() <= n,
            current == o[widx.last() as int].front,
            fresh && pred_closed(o, used0) ==> !stuck,
            n <= usize::MAX,
            forall|j: int| 0 <= j < n ==> (used@[j] <==> used0[j] || widx.contains(j as usize)),
            forall|k: int| 1 <= k < widx.len() ==> #[trigger] walk_goes_on(o, widx, k),
            forall|k: int, i: int|
                #![trigger widx[k], o[i]]
                1 <= k < widx.len() && 0 <= i < widx[k] && touches(o[i], o[widx[k - 1] as int].front) ==> used@[i],
            forall|k: int, k2: int|
                #![trigger widx[k], widx[k2]]
                1 <= k < widx.len() && 0 <= k2 < widx.len() && widx[k2] < widx[k] && touches(o[widx[k2] as int], o[widx[k - 1] as int].front)
                    ==> k2 < k,
            stuck ==> current != start_vid,
            stuck ==> forall|j: int| 0 <= j < n && #[trigger] touches(o[j], current) ==> used@[j],
        decreases n - widx.len() + if stuck { 0int } else { 1int },
    {
        let ghost p: int = 0;
        proof {
            assert(widx[widx.len() - 1] < n);
            if fresh && pred_closed(o, used0) {
                p = lemma_walk_cannot_stick(o, used0, used@, widx, start, current);
            }
        }
        let ghost c0 = current;
        match first_unused_touching(open, used, current) {
            Some(j) => {
                proof {
                    assert(!widx.contains(j)) by {
                        if widx.contains(j) {
                            let k = choose|k: int| 0 <= k < widx.len() && widx[k] == j;
                            assert(used@[widx[k] as int]);
                        }
                    }
                    assert(!used0[j as int]);
                    if fresh && pred_closed(o, used0) {
                        assert(j as int == p);
                    }
                }
                let ghost used_before = used@;
                used.set(j, true);
                let e = flip_use(open[j]);
                current = e.back;
                edges.push(e);
                proof {
                    let w0 = widx;
                    widx = widx.push(j);
                    assert(widx[w0.len() as int] == j);
                    assert(widx[w0.len() - 1] == w0.last());
                    assert forall|k: int| 1 <= k < widx.len() implies #[trigger] walk_goes_on(o, widx, k) by {
                        assert(widx[0] == w0[0]);
                        if k < w0.len() {
                            assert(widx[k] == w0[k] && widx[k - 1] == w0[k - 1]);
                            assert(walk_goes_on(o, w0, k));
                        }
                    }
                    assert forall|k: int, i: int|
                        #![trigger widx[k], o[i]]
                        1 <= k < widx.len() && 0 <= i < widx[k] && touches(o[i], o[widx[k - 1] as int].front) implies used@[i] by {
                        if k < w0.len() {
                            assert(widx[k] == w0[k] && widx[k - 1] == w0[k - 1]);
                            assert(used_before[i]);
                        }
                    }
                    assert forall|k: int, k2: int|
                        #![trigger widx[k], widx[k2]]
                        1 <= k < widx.len() && 0 <= k2 < widx.len() && widx[k2] < widx[k] && touches(
                            o[widx[k2] as int],
                            o[widx[k - 1] as int].front,
                        ) implies k2 < k by {
                        if k < w0.len() {
                            assert(widx[k] == w0[k] && widx[k - 1] == w0[k - 1]);
                            if k2 == w0.len() {
                                assert(used_before[j as int]);
                            } else {
                                assert(widx[k2] == w0[k2]);
                            }
                        }
                    }
                    assert forall|y: usize| widx.contains(y) <==> (w0.contains(y) || y == j) by {
                        crate::topology::lemma_push_contains_usize(w0, j, y);
                    }
                    assert forall|a: int, b: int| 0 <= a < b < widx.len() implies widx[a] != widx[b] by {
                        if b == w0.len() {
                            assert(w0.contains(widx[a]));
                        } else {
                            assert(widx[a] == w0[a] && widx[b] == w0[b]);
                        }
                    }
                    assert forall|k: int| 0 <= k < widx.len() implies #[trigger] widx[k] < n && !used0[widx[k] as int]
                        && used@[widx[k] as int] && edges@[k] == flip(o[widx[k] as int]) by {
                        if k < w0.len() {
                            assert(widx[k] == w0[k]);
                        }
                    }
                    if fresh && pred_closed(o, used0) {
                        assert(o[j as int].back == c0);
                        assert(o[w0.last() as int].front == c0);
                        assert forall|i: int| #![trigger widx[i]] 1 <= i < widx.len() implies o[widx[i] as int].back
                            == o[widx[i - 1] as int].front by {
                            if i < w0.len() {
                                assert(widx[i] == w0[i] && widx[i - 1] == w0[i - 1]);
                                assert(o[w0[i] as int].back == o[w0[i - 1] as int].front);
                            } else {
                                assert(widx[i - 1] == w0[w0.len() - 1]);
                            }
                        }
                    }
                    lemma_distinct_below(widx, n as nat);
                }
            },
            None => {
                stuck = true;
            },
        }
    }
    proof {
        assert(edges@ =~= walk_uses(o, widx));
        assert(widx.last() == widx[widx.len() - 1]);
    }
    (edges, stuck, Ghost(widx))
}

proof fn lemma_push_loop(
    o: Seq<EdgeUse>,
    used0: Seq<bool>,
    used: Seq<bool>,
    old_loops: Seq<Vec<EdgeUse>>,
    old_lidx: Seq<Seq<usize>>,
    loops: Seq<Vec<EdgeUse>>,
    lidx: Seq<Seq<usize>>,
    widx: Seq<usize>,
    fresh: bool,
)
    requires
        o.len() <= usize::MAX,
        used0.len() == o.len(),
        used.len() == o.len(),
        loops == old_loops.push(loops.last()),
        loops.last()@.len() == widx.len(),
        lidx == old_lidx.push(widx),
        is_closed_chain(loops.last()@),
        old_loops.len() == old_lidx.len(),
        forall|l: int| 0 <= l < old_lidx.len() ==> (#[trigger] old_lidx[l]).len() == old_loops[l]@.len(),
        forall|l: int| 0 <= l < old_lidx.len() ==> (#[trigger] old_lidx[l]).no_duplicates(),
        forall|l: int, k: int|
            0 <= l < old_lidx.len() && 0 <= k < old_lidx[l].len() ==> #[trigger] old_lidx[l][k] < o.len() && used0[old_lidx[l][k] as int]
                && old_loops[l]@[k] == flip(o[old_lidx[l][k] as int]),
        forall|l: int, l2: int, k: int, k2: int|
            0 <= l < l2 < old_lidx.len() && 0 <= k < old_lidx[l].len() && 0 <= k2 < old_lidx[l2].len() ==> #[trigger] old_lidx[l][k]
                != #[trigger] old_lidx[l2][k2],
        forall|l: int| 0 <= l < old_loops.len() ==> is_closed_chain((#[trigger] old_loops[l])@),
        widx.no_duplicates(),
        forall|k: int| 0 <= k < widx.len() ==> #[trigger] widx[k] < o.len() && !used0[widx[k] as int] && used[widx[k] as int]
            && loops.last()@[k] == flip(o[widx[k] as int]),
        forall|j: int| 0 <= j < o.len() && used0[j] ==> used[j],
        forall|j: int| 0 <= j < o.len() && used[j] ==> used0[j] || widx.contains(j as usize),
        fresh ==> forall|j: int|
            0 <= j < o.len() && #[trigger] used0[j] ==> exists|l: int, k: int|
                0 <= l < old_lidx.len() && 0 <= k < old_lidx[l].len() && #[trigger] old_lidx[l][k] == j as usize,
    ensures
        forall|l: int| 0 <= l < lidx.len() ==> (#[trigger] lidx[l]).len() == loops[l]@.len(),
        forall|l: int| 0 <= l < lidx.len() ==> (#[trigger] lidx[l]).no_duplicates(),
        forall|l: int, k: int|
            0 <= l < lidx.len() && 0 <= k < lidx[l].len() ==> #[trigger] lidx[l][k] < o.len() && used[lidx[l][k] as int]
                && loops[l]@[k] == flip(o[lidx[l][k] as int]),
        forall|l: int, l2: int, k: int, k2: int|
            0 <= l < l2 < lidx.len() && 0 <= k < lidx[l].len() && 0 <= k2 < lidx[l2].len() ==> #[trigger] lidx[l][k]
                != #[trigger] lidx[l2][k2],
        forall|l: int| 0 <= l < loops.len() ==> is_closed_chain((#[trigger] loops[l])@),
        fresh ==> forall|j: int|
            0 <= j < o.len() && #[trigger] used[j] ==> exists|l: int, k: int|
                0 <= l < lidx.len() && 0 <= k < lidx[l].len() && #[trigger] lidx[l][k] == j as usize,
{
    assert forall|l: int| 0 <= l < lidx.len() implies (#[trigger] lidx[l]).len() == loops[l]@.len() by {
        if l < old_lidx.len() {
            assert(lidx[l] == old_lidx[l] && loops[l] == old_loops[l]);
        }
    }
    assert forall|l: int| 0 <= l < lidx.len() implies (#[trigger] lidx[l]).no_duplicates() by {
        if l < old_lidx.len() {
            assert(lidx[l] == old_lidx[l]);
        }
    }
    assert forall|l: int, k: int|
        0 <= l < lidx.len() && 0 <= k < lidx[l].len() implies #[trigger] lidx[l][k] < o.len() && used[lidx[l][k] as int]
            && loops[l]@[k] == flip(o[lidx[l][k] as int]) by {
        if l < old_lidx.len() {
            assert(lidx[l] == old_lidx[l] && loops[l] == old_loops[l]);
            assert(used0[old_lidx[l][k] as int]);
        } else {
            assert(lidx[l] == widx);
        }
    }
    assert forall|l: int, l2: int, k: int, k2: int|
        0 <= l < l2 < lidx.len() && 0 <= k < lidx[l].len() && 0 <= k2 < lidx[l2].len() implies #[trigger] lidx[l][k]
            != #[trigger] lidx[l2][k2] by {
        assert(lidx[l] == old_lidx[l]);
        if l2 < old_lidx.len() {
            assert(lidx[l2] == old_lidx[l2]);
        } else {
            assert(lidx[l2] == widx);
            assert(used0[old_lidx[l][k] as int]);
            assert(!used0[widx[k2] as int]);
        }
    }
    assert forall|l: int| 0 <= l < loops.len() implies is_closed_chain((#[trigger] loops[l])@) by {
        if l < old_loops.len() {
            assert(loops[l] == old_loops[l]);
        }
    }
    if fresh {
        assert forall|j: int| 0 <= j < o.len() && #[trigger] used[j] implies exists|l: int, k: int|
            0 <= l < lidx.len() && 0 <= k < lidx[l].len() && #[trigger] lidx[l][k] == j as usize by {
            if used0[j] {
                let (l, k) = choose|l: int, k: int|
                    0 <= l < old_lidx.len() && 0 <= k < old_lidx[l].len() && #[trigger] old_lidx[l][k] == j as usize;
                assert(lidx[l] == old_lidx[l]);
            } else {
                let k = choose|k: int| 0 <= k < widx.len() && widx[k] == j as usize;
                assert(lidx[old_lidx.len() as int] == widx);
                assert(lidx[old_lidx.len() as int][k] == j as usize);
            }
        }
    }
}

proof fn lemma_final_membership(o: Seq<EdgeUse>, loops: Seq<Vec<EdgeUse>>, lidx: Seq<Seq<usize>>)
    requires
        o.len() <= usize::MAX,
        forall|a: int, b: int| 0 <= a < b < o.len() ==> #[trigger] o[a].edge != #[trigger] o[b].edge,
        loops.len() == lidx.len(),
        forall|l: int| 0 <= l < lidx.len() ==> (#[trigger] lidx[l]).len() == loops[l]@.len(),
        forall|l: int| 0 <= l < lidx.len() ==> (#[trigger] lidx[l]).no_duplicates(),
        forall|l: int, k: int|
            0 <= l < lidx.len() && 0 <= k < lidx[l].len() ==> #[trigger] lidx[l][k] < o.len() && loops[l]@[k] == flip(
                o[lidx[l][k] as int],
            ),
        forall|l: int, l2: int, k: int, k2: int|
            0 <= l < l2 < lidx.len() && 0 <= k < lidx[l].len() && 0 <= k2 < lidx[l2].len() ==> #[trigger] lidx[l][k]
                != #[trigger] lidx[l2][k2],
    ensures
        forall|l: int, k: int| 0 <= l < loops.len() && 0 <= k < loops[l]@.len() ==> reversed_use_of(o, #[trigger] loops[l]@[k]),
        forall|l: int, k: int, k2: int|
            0 <= l < loops.len() && 0 <= k < k2 < loops[l]@.len() ==> #[trigger] loops[l]@[k].edge != #[trigger] loops[l]@[k2].edge,
        forall|l: int, l2: int, k: int, k2: int|
            0 <= l < l2 < loops.len() && 0 <= k < loops[l]@.len() && 0 <= k2 < loops[l2]@.len() ==> #[trigger] loops[l]@[k].edge
                != #[trigger] loops[l2]@[k2].edge,
{
    assert forall|l: int, k: int| 0 <= l < loops.len() && 0 <= k < loops[l]@.len() implies reversed_use_of(o, #[trigger] loops[l]@[k]) by {
        let j = lidx[l][k] as int;
        assert(0 <= j < o.len() && loops[l]@[k] == flip(o[j]));
    }
    assert forall|l: int, k: int, k2: int|
        0 <= l < loops.len() && 0 <= k < k2 < loops[l]@.len() implies #[trigger] loops[l]@[k].edge
            != #[trigger] loops[l]@[k2].edge by {
        lemma_distinct_edges(o, lidx[l][k] as int, lidx[l][k2] as int);
    }
    assert forall|l: int, l2: int, k: int, k2: int|
        0 <= l < l2 < loops.len() && 0 <= k < loops[l]@.len() && 0 <= k2 < loops[l2]@.len() implies #[trigger] loops[l]@[k].edge
            != #[trigger] loops[l2]@[k2].edge by {
        lemma_distinct_edges(o, lidx[l][k] as int, lidx[l2][k2] as int);
    }
}

proof fn lemma_distinct_edges(o: Seq<EdgeUse>, a: int, b: int)
    requires
        forall|a: int, b: int| 0 <= a < b < o.len() ==> #[trigger] o[a].edge != #[trigger] o[b].edge,
        0 <= a < o.len(),
        0 <= b < o.len(),
        a != b,
    ensures
        flip(o[a]).edge != flip(o[b]).edge,
{
    if a > b {
        assert(o[b].edge != o[a].edge);
    }
}

proof fn lemma_final_cover(o: Seq<EdgeUse>, used: Seq<bool>, loops: Seq<Vec<EdgeUse>>, lidx: Seq<Seq<usize>>)
    requires
        o.len() <= usize::MAX,
        o.len() > 0,
        used.len() == o.len(),
        forall|j: int| 0 <= j < o.len() ==> used[j],
        loops.len() == lidx.len(),
        forall|l: int| 0 <= l < lidx.len() ==> (#[trigger] lidx[l]).len() == loops[l]@.len(),
        forall|l: int, k: int|
            0 <= l < lidx.len() && 0 <= k < lidx[l].len() ==> #[trigger] lidx[l][k] < o.len() && loops[l]@[k] == flip(
                o[lidx[l][k] as int],
            ),
        forall|j: int|
            0 <= j < o.len() && #[trigger] used[j] ==> exists|l: int, k: int|
                0 <= l < lidx.len() && 0 <= k < lidx[l].len() && #[trigger] lidx[l][k] == j as usize,
    ensures
        loops.len() > 0,
        forall|j: int| 0 <= j < o.len() ==> on_some_loop(loops_view(loops), flip(#[trigger] o[j])),
{
    assert(used[0]);
    assert forall|j: int| 0 <= j < o.len() implies on_some_loop(loops_view(loops), flip(#[trigger] o[j])) by {
        assert(used[j]);
        let (l, k) = choose|l: int, k: int|
            0 <= l < lidx.len() && 0 <= k < lidx[l].len() && #[trigger] lidx[l][k] == j as usize;
        assert(loops[l]@[k] == flip(o[lidx[l][k] as int]));
        assert(loops_view(loops)[l][k] == flip(o[j]));
    }
}

/// Walks from every open use not yet taken, in order, and keeps the walks
/// that close (see `walk_open_uses`).
#[verifier::rlimit(40)]
fn trace_open_loops(open: &Vec<EdgeUse>) -> (r: Vec<Vec<EdgeUse>>)
    requires
        open@.len() > 0,
        forall|a: int, b: int| 0 <= a < b < open@.len() ==> #[trigger] open@[a].edge != #[trigger] open@[b].edge,
    ensures
        forall|l: int| 0 <= l < r@.len() ==> is_closed_chain((#[trigger] r@[l])@),
        forall|l: int, k: int| 0 <= l < r@.len() && 0 <= k < r@[l]@.len() ==> reversed_use_of(open@, #[trigger] r@[l]@[k]),
        forall|l: int, k: int, k2: int|
            0 <= l < r@.len() && 0 <= k < k2 < r@[l]@.len() ==> #[trigger] r@[l]@[k].edge != #[trigger] r@[l]@[k2].edge,
        forall|l: int, l2: int, k: int, k2: int|
            0 <= l < l2 < r@.len() && 0 <= k < r@[l]@.len() && 0 <= k2 < r@[l2]@.len() ==> #[trigger] r@[l]@[k].edge
                != #[trigger] r@[l2]@[k2].edge,
        consistently_oriented(open@) ==> r@.len() > 0,
        consistently_oriented(open@) ==> forall|j: int|
            0 <= j < open@.len() ==> on_some_loop(loops_view(r@), flip(#[trigger] open@[j])),
        loops_of(open@, loops_view(r@)),
{
    let ghost o = open@;
    let ghost fresh = consistently_oriented(o);
    let n = open.len();
    let mut used: Vec<bool> = Vec::new();
    let mut i: usize = 0;
    while i < n
        invariant
            i <= n,
            used@.len() == i,
            forall|j: int| 0 <= j < i ==> !used@[j],
        decreases n - i,
    {
        used.push(false);
        i = i + 1;
    }
    let mut loops: Vec<Vec<EdgeUse>> = Vec::new();
    let ghost mut lidx: Seq<Seq<usize>> = Seq::empty();
    let ghost mut walks: Seq<Seq<usize>> = Seq::empty();
    proof {
        assert(loops_view(loops@) =~= kept_walks(o, walks, 0));
    }
    let mut start: usize = 0;
    while start < n
        invariant
            walks_built(o, walks, used@),
            loops_view(loops@) == kept_walks(o, walks, walks.len() as int),
            n == o.len(),
            open@ == o,
            fresh == consistently_oriented(o),
            forall|a: int, b: int| 0 <= a < b < o.len() ==> #[trigger] o[a].edge != #[trigger] o[b].edge,
            start <= n,
            used@.len() == n,
            forall|j: int| 0 <= j < start ==> used@[j],
            loops@.len() == lidx.len(),
            forall|l: int| 0 <= l < lidx.len() ==> (#[trigger] lidx[l]).len() == loops@[l]@.len(),
            forall|l: int| 0 <= l < lidx.len() ==> (#[trigger] lidx[l]).no_duplicates(),
            forall|l: int, k: int|
                0 <= l < lidx.len() && 0 <= k < lidx[l].len() ==> #[trigger] lidx[l][k] < n && used@[lidx[l][k] as int]
                    && loops@[l]@[k] == flip(o[lidx[l][k] as int]),
            forall|l: int, l2: int, k: int, k2: int|
                0 <= l < l2 < lidx.len() && 0 <= k < lidx[l].len() && 0 <= k2 < lidx[l2].len() ==> #[trigger] lidx[l][k]
                    != #[trigger] lidx[l2][k2],
            forall|l: int| 0 <= l < loops@.len() ==> is_closed_chain((#[trigger] loops@[l])@),
            fresh ==> pred_closed(o, used@),
            fresh ==> forall|j: int|
                0 <= j < n && #[trigger] used@[j] ==> exists|l: int, k: int|
                    0 <= l < lidx.len() && 0 <= k < lidx[l].len() && #[trigger] lidx[l][k] == j as usize,
        decreases n - start,
    {
        if !used[start] {
            let ghost used0 = used@;
            let (edges, stuck, Ghost(widx)) = walk_open_uses(&open, &mut used, start);
            let ghost walks0 = walks;
            proof {
                assert(widx[0] < n && used@[widx[0] as int]);
                assert(used@[start as int]);
                if fresh {
                    lemma_walk_closes(o, used0, used@, widx, start, edges@);
                }
                lemma_walks_push(o, walks, used0, used@, start as int, widx, stuck);
                walks = walks.push(widx);
                lemma_kept_walks_prefix(o, walks0, walks, walks0.len() as int);
                if stuck {
                    assert(widx.last() == widx[widx.len() - 1]);
                    assert(edges@[0] == flip(o[start as int]));
                    assert(edges@.last() == flip(o[widx.last() as int]));
                }
            }
            if !stuck && closed_chain(&edges) {
                let ghost old_loops = loops@;
                let ghost old_lidx = lidx;
                loops.push(edges);
                proof {
                    lidx = lidx.push(widx);
                    lemma_push_loop(o, used0, used@, old_loops, old_lidx, loops@, lidx, widx, fresh);
                    assert(loops_view(loops@) =~= loops_view(old_loops).push(edges@));
                }
            } else {
                proof {
                    assert(!fresh);
                    assert forall|l: int, k: int|
                        0 <= l < lidx.len() && 0 <= k < lidx[l].len() implies #[trigger] lidx[l][k] < n && used@[lidx[l][k] as int]
                            && loops@[l]@[k] == flip(o[lidx[l][k] as int]) by {
                        assert(used0[lidx[l][k] as int]);
                    }
                }
            }
        }
        start = start + 1;
    }
    proof {
        lemma_final_membership(o, loops@, lidx);
        if fresh {
            lemma_final_cover(o, used@, loops@, lidx);
        }
        assert(open_walks(o, walks)) by {
            assert forall|j: int| 0 <= j < o.len() implies #[trigger] on_walk(walks, j) by {
                assert(used@[j]);
            }
        }
    }
    loops
}

proof fn lemma_kept_walks_prefix(o: Seq<EdgeUse>, w1: Seq<Seq<usize>>, w2: Seq<Seq<usize>>, n: int)
    requires
        0 <= n <= w1.len(),
        n <= w2.len(),
        forall|w: int| 0 <= w < n ==> #[trigger] w1[w] == w2[w],
    ensures
        kept_walks(o, w1, n) == kept_walks(o, w2, n),
    decreases n,
{
    if n > 0 {
        lemma_kept_walks_prefix(o, w1, w2, n - 1);
        assert(w1[n - 1] == w2[n - 1]);
    }
}


proof fn lemma_open_first_agrees(o: Seq<EdgeUse>, a: Seq<Seq<usize>>, b: Seq<Seq<usize>>, w: int)
    requires
        open_walks(o, a),
        open_walks(o, b),
        0 <= w < a.len(),
        w < b.len(),
        forall|v: int| 0 <= v < w ==> #[trigger] a[v] == b[v],
    ensures
        a[w][0] == b[w][0],
{
    let x = a[w][0];
    let y = b[w][0];
    assert(a[w].len() > 0 && b[w].len() > 0);
    if x < y {
        assert(on_walk(b, x as int));
        let (w2, k2) = choose|w2: int, k2: int| 0 <= w2 < b.len() && 0 <= k2 < b[w2].len() && #[trigger] b[w2][k2] == x as int;
        assert(b[w2][k2] < b[w][0]);
        assert(a[w2] == b[w2]);
        assert(a[w2][k2] == a[w][0]);
    } else if y < x {
        assert(on_walk(a, y as int));
        let (w2, k2) = choose|w2: int, k2: int| 0 <= w2 < a.len() && 0 <= k2 < a[w2].len() && #[trigger] a[w2][k2] == y as int;
        assert(a[w2][k2] < a[w][0]);
        assert(a[w2] == b[w2]);
        assert(b[w2][k2] == b[w][0]);
    }
}

proof fn lemma_open_step_agrees(o: Seq<EdgeUse>, a: Seq<Seq<usize>>, b: Seq<Seq<usize>>, w: int, k: int)
    requires
        open_walks(o, a),
        open_walks(o, b),
        0 <= w < a.len(),
        w < b.len(),
        forall|v: int| 0 <= v < w ==> #[trigger] a[v] == b[v],
        1 <= k < a[w].len(),
        k < b[w].len(),
        forall|j: int| 0 <= j < k ==> #[trigger] a[w][j] == b[w][j],
    ensures
        a[w][k] == b[w][k],
{
    let x = a[w][k];
    let y = b[w][k];
    assert(walk_goes_on(o, a[w], k) && walk_goes_on(o, b[w], k));
    assert(a[w][k - 1] == b[w][k - 1]);
    if x < y {
        assert(on_walk(b, x as int));
        let (w2, k2) = choose|w2: int, k2: int| 0 <= w2 < b.len() && 0 <= k2 < b[w2].len() && #[trigger] b[w2][k2] == x as int;
        assert(b[w2][k2] < b[w][k] && touches(o[b[w2][k2] as int], o[b[w][k - 1] as int].front));
        if w2 < w {
            assert(a[w2] == b[w2]);
            assert(a[w2][k2] == a[w][k]);
        } else {
            assert(a[w][k2] == b[w][k2]);
            assert(a[w][k2] == a[w][k]);
        }
    } else if y < x {
        assert(on_walk(a, y as int));
        let (w2, k2) = choose|w2: int, k2: int| 0 <= w2 < a.len() && 0 <= k2 < a[w2].len() && #[trigger] a[w2][k2] == y as int;
        assert(a[w2][k2] < a[w][k] && touches(o[a[w2][k2] as int], o[a[w][k - 1] as int].front));
        if w2 < w {
            assert(a[w2] == b[w2]);
            assert(b[w2][k2] == b[w][k]);
        } else {
            assert(a[w][k2] == b[w][k2]);
            assert(b[w][k2] == b[w][k]);
        }
    }
}

proof fn lemma_open_walk_agrees(o: Seq<EdgeUse>, a: Seq<Seq<usize>>, b: Seq<Seq<usize>>, w: int, k: int)
    requires
        open_walks(o, a),
        open_walks(o, b),
        0 <= w < a.len(),
        w < b.len(),
        forall|v: int| 0 <= v < w ==> #[trigger] a[v] == b[v],
        0 <= k <= a[w].len(),
        k <= b[w].len(),
    ensures
        forall|j: int| 0 <= j < k ==> #[trigger] a[w][j] == b[w][j],
    decreases k,
{
    if k > 0 {
        lemma_open_walk_agrees(o, a, b, w, k - 1);
        if k - 1 == 0 {
            lemma_open_first_agrees(o, a, b, w);
        } else {
            lemma_open_step_agrees(o, a, b, w, k - 1);
        }
    }
}

proof fn lemma_open_stop_agrees(o: Seq<EdgeUse>, a: Seq<Seq<usize>>, b: Seq<Seq<usize>>, w: int)
    requires
        open_walks(o, a),
        open_walks(o, b),
        0 <= w < a.len(),
        w < b.len(),
        forall|v: int| 0 <= v < w ==> #[trigger] a[v] == b[v],
        forall|j: int| 0 <= j < a[w].len() && j < b[w].len() ==> #[trigger] a[w][j] == b[w][j],
    ensures
        a[w].len() >= b[w].len(),
{
    let l = a[w].len() as int;
    if l < b[w].len() {
        assert(a[w].len() > 0);
        assert(walk_goes_on(o, b[w], l));
        assert(a[w][l - 1] == b[w][l - 1] && a[w][0] == b[w][0]);
        assert(a[w].last() == a[w][l - 1]);
        let y = b[w][l];
        assert(on_walk(a, y as int));
        let (w2, k2) = choose|w2: int, k2: int| 0 <= w2 < a.len() && 0 <= k2 < a[w2].len() && #[trigger] a[w2][k2] == y as int;
        assert(touches(o[a[w2][k2] as int], o[a[w].last() as int].front));
        assert(w2 <= w);
        if w2 < w {
            assert(a[w2] == b[w2]);
            assert(b[w2][k2] == b[w][l]);
        } else {
            assert(a[w][k2] == b[w][k2]);
            assert(b[w][k2] == b[w][l]);
        }
    }
}

proof fn lemma_open_walks_agree(o: Seq<EdgeUse>, a: Seq<Seq<usize>>, b: Seq<Seq<usize>>, w: int)
    requires
        open_walks(o, a),
        open_walks(o, b),
        0 <= w <= a.len(),
        w <= b.len(),
    ensures
        forall|v: int| 0 <= v < w ==> #[trigger] a[v] == b[v],
    decreases w,
{
    if w > 0 {
        let v = w - 1;
        lemma_open_walks_agree(o, a, b, v);
        let l1 = a[v].len() as int;
        let l2 = b[v].len() as int;
        let m = if l1 < l2 { l1 } else { l2 };
        lemma_open_walk_agrees(o, a, b, v, m);
        lemma_open_stop_agrees(o, a, b, v);
        assert forall|u: int| 0 <= u < v implies #[trigger] b[u] == a[u] by {
            assert(a[u] == b[u]);
        }
        lemma_open_stop_agrees(o, b, a, v);
        assert(a[v] =~= b[v]);
        assert forall|u: int| 0 <= u < w implies #[trigger] a[u] == b[u] by {
            if u < v {
                assert(a[u] == b[u]);
            }
        }
    }
}

/// The walks over the open uses leave no choice: two lists of walks that
/// both satisfy `open_walks` are equal, and so are the loops they close.
pub proof fn open_loops_are_unique(o: Seq<EdgeUse>, ls1: Seq<Seq<EdgeUse>>, ls2: Seq<Seq<EdgeUse>>)
    requires
        loops_of(o, ls1),
        loops_of(o, ls2),
    ensures
        ls1 == ls2,
{
    let a = choose|walks: Seq<Seq<usize>>| #[trigger] open_walks(o, walks) && ls1 == kept_walks(o, walks, walks.len() as int);
    let b = choose|walks: Seq<Seq<usize>>| #[trigger] open_walks(o, walks) && ls2 == kept_walks(o, walks, walks.len() as int);
    let n = if a.len() < b.len() { a.len() as int } else { b.len() as int };
    lemma_open_walks_agree(o, a, b, n);
    if a.len() < b.len() {
        assert(b[n].len() > 0);
        let y = b[n][0];
        assert(on_walk(a, y as int));
        let (w2, k2) = choose|w2: int, k2: int| 0 <= w2 < a.len() && 0 <= k2 < a[w2].len() && #[trigger] a[w2][k2] == y as int;
        assert(a[w2] == b[w2]);
        assert(b[w2][k2] == b[n][0]);
    } else if b.len() < a.len() {
        assert(a[n].len() > 0);
        let y = a[n][0];
        assert(on_walk(b, y as int));
        let (w2, k2) = choose|w2: int, k2: int| 0 <= w2 < b.len() && 0 <= k2 < b[w2].len() && #[trigger] b[w2][k2] == y as int;
        assert(a[w2] == b[w2]);
        assert(a[w2][k2] == a[n][0]);
    }
    lemma_kept_walks_prefix(o, a, b, n);
}

/// The loops that the open edges of a list of faces form. The open edges
/// (used by one face only) are taken in table order, each against the
/// direction of its face; `None` when there are none or some end of them is
/// not shared by exactly two. Otherwise, from each open edge not yet taken, in
/// order, a walk takes at its current end the first open edge not yet taken
/// that touches it, until it returns to its start or finds none; a walk that
/// returns to its start as a closed chain is a loop (see `loops_of`, which
/// admits one result only). `None` when no loop results. Each loop is a closed chain of reversed open uses, and no open
/// edge lies on two loops or twice on one. When the open uses are
/// consistently oriented (each of their vertices starts one and ends one),
/// the loops hold every open edge.
pub fn open_edge_loops(faces: &[FaceTopo]) -> (r: Option<Vec<Vec<EdgeUse>>>)
    ensures
        face_open_uses(faces@).len() == 0 || !all_degree_two(face_open_uses(faces@)) ==> r is None,
        r matches Some(ls) ==> {
            &&& ls@.len() > 0
            &&& forall|l: int| 0 <= l < ls@.len() ==> is_closed_chain((#[trigger] ls@[l])@)
            &&& forall|l: int, k: int|
                0 <= l < ls@.len() && 0 <= k < ls@[l]@.len() ==> reversed_use_of(face_open_uses(faces@), #[trigger] ls@[l]@[k])
            &&& forall|l: int, k: int, k2: int|
                0 <= l < ls@.len() && 0 <= k < k2 < ls@[l]@.len() ==> #[trigger] ls@[l]@[k].edge != #[trigger] ls@[l]@[k2].edge
            &&& forall|l: int, l2: int, k: int, k2: int|
                0 <= l < l2 < ls@.len() && 0 <= k < ls@[l]@.len() && 0 <= k2 < ls@[l2]@.len() ==> #[trigger] ls@[l]@[k].edge
                    != #[trigger] ls@[l2]@[k2].edge
        },
        face_open_uses(faces@).len() > 0 && consistently_oriented(face_open_uses(faces@)) ==> (r matches Some(ls)
            && forall|j: int|
            0 <= j < face_open_uses(faces@).len() ==> on_some_loop(loops_view(ls@), flip(#[trigger] face_open_uses(faces@)[j]))),
        face_open_uses(faces@).len() > 0 && all_degree_two(face_open_uses(faces@)) ==> match r {
            Some(ls) => loops_of(face_open_uses(faces@), loops_view(ls@)),
            None => loops_of(face_open_uses(faces@), Seq::empty()),
        },
{
    let table = build_half_edge_table(faces);
    let open = open_use_list(&table);
    let ghost o = open@;
    proof {
        lemma_open_uses_props(table@, table@.len() as int);
    }
    assert(o == face_open_uses(faces@));
    let ghost fresh = consistently_oriented(o);
    proof {
        if fresh {
            lemma_consistent_degree_two(o);
        }
    }
    let n = open.len();
    if n == 0 {
        return None;
    }
    let mut k: usize = 0;
    while k < n
        invariant
            n == o.len(),
            open@ == o,
            k <= n,
            forall|j: int| 0 <= j < k ==> degree(o, (#[trigger] o[j]).front) == 2 && degree(o, o[j].back) == 2,
            o == face_open_uses(faces@),
            fresh == consistently_oriented(o),
            fresh ==> all_degree_two(o),
        decreases n - k,
    {
        if !degree_is_two(&open, open[k].front) || !degree_is_two(&open, open[k].back) {
            return None;
        }
        k = k + 1;
    }
    let loops = trace_open_loops(&open);
    if loops.len() == 0 {
        assert(loops_view(loops@) =~= Seq::<Seq<EdgeUse>>::empty());
        return None;
    }
    Some(loops)
}

} // verus!
