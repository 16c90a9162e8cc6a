//! The face boundary graph: the boundary wires of a face (its own and those
//! derived from intersection curves) as a half-edge structure whose face cycles are the
//! fragments of the divided face.
use vstd::prelude::*;
use crate::classification::ShapesOpStatus;
use crate::topology::{EdgeUse, wire_vertices, wire_vertex_list, lemma_flatten_new_step};
use crate::reach::{reachable, reachable_from, adj_view, well_formed, count_true, lemma_count_true_all};

verus! {

/// A boundary wire of a face with the classification status it carries.
pub struct BoundaryWireTopo {
    /// The edge uses of the wire, in order.
    pub wire: Vec<EdgeUse>,
    /// The status the wire carries.
    pub status: ShapesOpStatus,
}

/// "No next half-edge yet".
pub const NO_NEXT: usize = usize::MAX;

/// Half-edge of the face boundary graph.
#[derive(Clone, Copy, PartialEq, Eq, Structural, Debug)]
pub struct FBGHalfEdge {
    /// Index in the half-edge list.
    pub id: usize,
    /// Index of the vertex this half-edge leaves.
    pub origin: usize,
    /// Index of the twin half-edge (pairs are allocated as 2k and 2k+1).
    pub twin: usize,
    /// Next half-edge in the face cycle (`NO_NEXT` until linked).
    pub next: usize,
    /// Identity of the underlying edge.
    pub edge: u64,
    /// Whether this half-edge runs along the stored edge direction.
    pub forward: bool,
    /// Classification status from the boundary wire.
    pub status: ShapesOpStatus,
    /// Whether this half-edge has been consumed during cycle extraction.
    pub used: bool,
}

/// Vertex of the face boundary graph.
#[derive(Debug)]
pub struct FBGVertex {
    /// Index in the vertex list.
    pub id: usize,
    /// Identity of the vertex.
    pub vertex: u64,
    /// The half-edges leaving this vertex (in angular order once sorted).
    pub outgoing: Vec<usize>,
}

/// The face boundary graph of one face.
#[derive(Debug)]
pub struct FaceBoundaryGraph {
    /// All vertices.
    pub vertices: Vec<FBGVertex>,
    /// All half-edges (indices 2k and 2k+1 are twins).
    pub half_edges: Vec<FBGHalfEdge>,
}

/// The vertices of every loop, loop by loop.
pub open spec fn loop_vertex_seq(loops: Seq<BoundaryWireTopo>) -> Seq<u64> {
    Seq::new(loops.len(), |i: int| wire_vertices(loops[i].wire@)).flatten()
}

/// The edge uses of every loop with the loop's status, loop by loop.
pub open spec fn loop_uses(loops: Seq<BoundaryWireTopo>) -> Seq<(EdgeUse, ShapesOpStatus)> {
    Seq::new(
        loops.len(),
        |i: int| loops[i].wire@.map_values(|u: EdgeUse| (u, loops[i].status)),
    ).flatten()
}

/// The distinct elements of the first `n` entries, in order of first occurrence.
pub open spec fn dedup_upto(s: Seq<u64>, n: int) -> Seq<u64>
    decreases n,
{
    if n <= 0 {
        Seq::empty()
    } else {
        let prev = dedup_upto(s, n - 1);
        if prev.contains(s[n - 1]) {
            prev
        } else {
            prev.push(s[n - 1])
        }
    }
}

/// The distinct vertices of the loops, in order of first occurrence.
pub open spec fn graph_vertex_ids(loops: Seq<BoundaryWireTopo>) -> Seq<u64> {
    dedup_upto(loop_vertex_seq(loops), loop_vertex_seq(loops).len() as int)
}

/// The index of `x` in a list without duplicates.
pub open spec fn index_in(vs: Seq<u64>, x: u64) -> int {
    choose|k: int| 0 <= k < vs.len() && vs[k] == x
}

/// The first half-edge among the first `n` that stands for `edge` in direction
/// `forward`.
pub open spec fn find_half_edge(hs: Seq<FBGHalfEdge>, edge: u64, forward: bool, n: int) -> Option<int>
    decreases n,
{
    if n <= 0 {
        None
    } else {
        match find_half_edge(hs, edge, forward, n - 1) {
            Some(p) => Some(p),
            None => if hs[n - 1].edge == edge && hs[n - 1].forward == forward {
                Some(n - 1)
            } else {
                None
            },
        }
    }
}

/// The half-edges after the first `n` edge uses: a use whose ends are not both
/// graph vertices, or are the same vertex, adds nothing; a use whose edge already has a half-edge in the use's
/// direction only passes a decided (non-Unknown) status on to it; any other
/// use adds a twin pair — the first half-edge leaving the use's start, the
/// second leaving its end, both with the wire's status.
pub open spec fn half_edges_upto(uses: Seq<(EdgeUse, ShapesOpStatus)>, vs: Seq<u64>, n: int) -> Seq<FBGHalfEdge>
    decreases n,
{
    if n <= 0 {
        Seq::empty()
    } else {
        let hs = half_edges_upto(uses, vs, n - 1);
        let (u, st) = uses[n - 1];
        let fi = index_in(vs, u.front);
        let bi = index_in(vs, u.back);
        if !vs.contains(u.front) || !vs.contains(u.back) || fi == bi {
            hs
        } else {
            match find_half_edge(hs, u.edge, u.forward, hs.len() as int) {
                Some(p) => if st != ShapesOpStatus::Unknown {
                    hs.update(p, FBGHalfEdge { status: st, ..hs[p] })
                } else {
                    hs
                },
                None => {
                    let id = hs.len();
                    hs.push(
                        FBGHalfEdge {
                            id: id as usize,
                            origin: fi as usize,
                            twin: (id + 1) as usize,
                            next: NO_NEXT,
                            edge: u.edge,
                            forward: true,
                            status: st,
                            used: false,
                        },
                    ).push(
                        FBGHalfEdge {
                            id: (id + 1) as usize,
                            origin: bi as usize,
                            twin: id as usize,
                            next: NO_NEXT,
                            edge: u.edge,
                            forward: false,
                            status: st,
                            used: false,
                        },
                    )
                },
            }
        }
    }
}

/// The half-edges built from the loops.
pub open spec fn graph_half_edges(loops: Seq<BoundaryWireTopo>) -> Seq<FBGHalfEdge> {
    half_edges_upto(loop_uses(loops), graph_vertex_ids(loops), loop_uses(loops).len() as int)
}

/// The half-edges among the first `n` that leave vertex `v`, in index order.
pub open spec fn outgoing_upto(hs: Seq<FBGHalfEdge>, v: int, n: int) -> Seq<usize>
    decreases n,
{
    if n <= 0 {
        Seq::empty()
    } else {
        let prev = outgoing_upto(hs, v, n - 1);
        if hs[n - 1].origin == v {
            prev.push((n - 1) as usize)
        } else {
            prev
        }
    }
}

/// The half-edges leaving vertex `v`, in index order.
pub open spec fn outgoing_of(hs: Seq<FBGHalfEdge>, v: int) -> Seq<usize> {
    outgoing_upto(hs, v, hs.len() as int)
}

/// The vertices of every loop, loop by loop.
fn flat_loop_vertices(loops: &[BoundaryWireTopo]) -> (r: Vec<u64>)
    ensures
        r@ == loop_vertex_seq(loops@),
{
    let mut out: Vec<u64> = Vec::new();
    let mut i: usize = 0;
    while i < loops.len()
        invariant
            i <= loops@.len(),
            out@ == Seq::new(i as nat, |j: int| wire_vertices(loops@[j].wire@)).flatten(),
        decreases loops@.len() - i,
    {
        let vs = wire_vertex_list(&loops[i].wire);
        let mut k: usize = 0;
        let ghost base = out@;
        while k < vs.len()
            invariant
                k <= vs@.len(),
                out@ == base + vs@.take(k as int),
            decreases vs@.len() - k,
        {
            out.push(vs[k]);
            assert(vs@.take(k + 1) =~= vs@.take(k as int).push(vs@[k as int]));
            k = k + 1;
        }
        assert(vs@.take(vs@.len() as int) =~= vs@);
        proof {
            lemma_flatten_new_step(i as nat, |j: int| wire_vertices(loops@[j].wire@));
        }
        i = i + 1;
    }
    out
}

/// The edge uses of every loop with the loop's status, loop by loop.
fn flat_loop_uses(loops: &[BoundaryWireTopo]) -> (r: Vec<(EdgeUse, ShapesOpStatus)>)
    ensures
        r@ == loop_uses(loops@),
{
    let mut out: Vec<(EdgeUse, ShapesOpStatus)> = Vec::new();
    let mut i: usize = 0;
    while i < loops.len()
        invariant
            i <= loops@.len(),
            out@ == Seq::new(
                i as nat,
                |j: int| loops@[j].wire@.map_values(|u: EdgeUse| (u, loops@[j].status)),
            ).flatten(),
        decreases loops@.len() - i,
    {
        let wire = &loops[i].wire;
        let st = loops[i].status;
        let ghost tagged = wire@.map_values(|u: EdgeUse| (u, st));
        let mut k: usize = 0;
        let ghost base = out@;
        while k < wire.len()
            invariant
                k <= wire@.len(),
                tagged == wire@.map_values(|u: EdgeUse| (u, st)),
                out@ == base + tagged.take(k as int),
            decreases wire@.len() - k,
        {
            out.push((wire[k], st));
            assert(tagged.take(k + 1) =~= tagged.take(k as int).push(tagged[k as int]));
            k = k + 1;
        }
        assert(tagged.take(wire@.len() as int) =~= tagged);
        proof {
            lemma_flatten_new_step(i as nat, |j: int| loops@[j].wire@.map_values(|u: EdgeUse| (u, loops@[j].status)));
        }
        i = i + 1;
    }
    out
}

proof fn lemma_dedup_props(s: Seq<u64>, n: int)
    requires
        0 <= n <= s.len(),
    ensures
        dedup_upto(s, n).no_duplicates(),
        forall|x: u64| dedup_upto(s, n).contains(x) <==> s.take(n).contains(x),
        dedup_upto(s, n).len() <= n,
    decreases n,
{
    if n > 0 {
        lemma_dedup_props(s, n - 1);
        let prev = dedup_upto(s, n - 1);
        assert(s.take(n) =~= s.take(n - 1).push(s[n - 1]));
        assert forall|x: u64| dedup_upto(s, n).contains(x) <==> s.take(n).contains(x) by {
            crate::topology::lemma_push_contains(s.take(n - 1), s[n - 1], x);
            if !prev.contains(s[n - 1]) {
                crate::topology::lemma_push_contains(prev, s[n - 1], x);
            }
        }
        if !prev.contains(s[n - 1]) {
            let cur = prev.push(s[n - 1]);
            assert forall|a: int, b: int| 0 <= a < b < cur.len() implies cur[a] != cur[b] by {
                if b == prev.len() {
                    assert(cur[a] == prev[a]);
                } else {
                    assert(cur[a] == prev[a] && cur[b] == prev[b]);
                }
            }
        }
    }
}

/// The index of `x` in `v`, if it occurs.
fn find_index(v: &Vec<u64>, x: u64) -> (r: Option<usize>)
    ensures
        r matches Some(p) ==> p < v@.len() && v@[p as int] == x,
        r is None ==> !v@.contains(x),
{
    let mut j: usize = 0;
    while j < v.len()
        invariant
            j <= v@.len(),
            forall|k: int| 0 <= k < j ==> v@[k] != x,
        decreases v@.len() - j,
    {
        if v[j] == x {
            return Some(j);
        }
        j = j + 1;
    }
    None
}

/// The distinct vertices of the loops, in order of first occurrence.
fn distinct_vertices(all: &Vec<u64>) -> (r: Vec<u64>)
    ensures
        r@ == dedup_upto(all@, all@.len() as int),
{
    let mut out: Vec<u64> = Vec::new();
    let mut i: usize = 0;
    while i < all.len()
        invariant
            i <= all@.len(),
            out@ == dedup_upto(all@, i as int),
        decreases all@.len() - i,
    {
        if find_index(&out, all[i]).is_none() {
            out.push(all[i]);
        }
        i = i + 1;
    }
    out
}

/// The first half-edge standing for `edge` in direction `forward`.
fn find_half_edge_exec(hs: &Vec<FBGHalfEdge>, edge: u64, forward: bool) -> (r: Option<usize>)
    ensures
        r matches Some(p) ==> p < hs@.len() && find_half_edge(hs@, edge, forward, hs@.len() as int) == Some(
            p as int,
        ),
        r is None ==> find_half_edge(hs@, edge, forward, hs@.len() as int) is None,
{
    let mut j: usize = 0;
    while j < hs.len()
        invariant
            j <= hs@.len(),
            find_half_edge(hs@, edge, forward, j as int) is None,
        decreases hs@.len() - j,
    {
        if hs[j].edge == edge && hs[j].forward == forward {
            proof {
                lemma_find_stable(hs@, edge, forward, j as int + 1, hs@.len() as int);
            }
            return Some(j);
        }
        j = j + 1;
    }
    None
}

proof fn lemma_find_range(hs: Seq<FBGHalfEdge>, edge: u64, forward: bool, n: int)
    ensures
        find_half_edge(hs, edge, forward, n) matches Some(p) ==> 0 <= p < n && hs[p].edge == edge
            && hs[p].forward == forward,
    decreases n,
{
    if n > 0 {
        lemma_find_range(hs, edge, forward, n - 1);
    }
}

proof fn lemma_find_stable(hs: Seq<FBGHalfEdge>, edge: u64, forward: bool, m: int, n: int)
    requires
        0 <= m <= n,
        find_half_edge(hs, edge, forward, m) is Some,
    ensures
        find_half_edge(hs, edge, forward, n) == find_half_edge(hs, edge, forward, m),
    decreases n - m,
{
    if n > m {
        lemma_find_stable(hs, edge, forward, m, n - 1);
    }
}

proof fn lemma_half_edges_len(uses: Seq<(EdgeUse, ShapesOpStatus)>, vs: Seq<u64>, n: int)
    requires
        0 <= n <= uses.len(),
    ensures
        half_edges_upto(uses, vs, n).len() <= 2 * n,
    decreases n,
{
    if n > 0 {
        lemma_half_edges_len(uses, vs, n - 1);
        let hs = half_edges_upto(uses, vs, n - 1);
        let (u, st) = uses[n - 1];
        match find_half_edge(hs, u.edge, u.forward, hs.len() as int) {
            Some(p) => {
                lemma_find_range(hs, u.edge, u.forward, hs.len() as int);
            },
            None => {},
        }
    }
}

/// The half-edges leaving vertex `v`, in index order.
fn outgoing_list(hs: &Vec<FBGHalfEdge>, v: usize) -> (r: Vec<usize>)
    ensures
        r@ == outgoing_of(hs@, v as int),
{
    let mut out: Vec<usize> = Vec::new();
    let mut i: usize = 0;
    while i < hs.len()
        invariant
            i <= hs@.len(),
            out@ == outgoing_upto(hs@, v as int, i as int),
        decreases hs@.len() - i,
    {
        if hs[i].origin == v {
            out.push(i);
        }
        i = i + 1;
    }
    out
}

/// The vertex list of a graph: vertex `k` has identity `ids[k]` and the
/// outgoing half-edges of `hs`.
pub open spec fn vertices_match(vertices: Seq<FBGVertex>, ids: Seq<u64>, hs: Seq<FBGHalfEdge>) -> bool {
    &&& vertices.len() == ids.len()
    &&& forall|k: int|
        0 <= k < vertices.len() ==> {
            &&& (#[trigger] vertices[k]).id == k
            &&& vertices[k].vertex == ids[k]
            &&& vertices[k].outgoing@ == outgoing_of(hs, k)
        }
}

/// Builds the vertices and outgoing lists of a graph over `hs`.
fn build_vertices(ids: &Vec<u64>, hs: &Vec<FBGHalfEdge>) -> (r: Vec<FBGVertex>)
    ensures
        vertices_match(r@, ids@, hs@),
{
    let mut out: Vec<FBGVertex> = Vec::new();
    let mut k: usize = 0;
    while k < ids.len()
        invariant
            k <= ids@.len(),
            out@.len() == k,
            forall|j: int|
                0 <= j < k ==> {
                    &&& (#[trigger] out@[j]).id == j
                    &&& out@[j].vertex == ids@[j]
                    &&& out@[j].outgoing@ == outgoing_of(hs@, j)
                },
        decreases ids@.len() - k,
    {
        let outgoing = outgoing_list(hs, k);
        out.push(FBGVertex { id: k, vertex: ids[k], outgoing });
        k = k + 1;
    }
    out
}

/// Every index a graph holds is in range: each outgoing entry names a
/// half-edge, each half-edge's twin is a half-edge, and each origin a vertex.
pub open spec fn links_in_range(vertices: Seq<FBGVertex>, hs: Seq<FBGHalfEdge>) -> bool {
    &&& forall|v: int, k: int|
        0 <= v < vertices.len() && 0 <= k < vertices[v].outgoing@.len() ==> #[trigger] vertices[v].outgoing@[k]
            < hs.len()
    &&& forall|i: int| 0 <= i < hs.len() ==> (#[trigger] hs[i]).twin < hs.len() && hs[i].origin < vertices.len()
}

/// The vertex-to-vertex arcs of a graph: from each vertex to the end of each of
/// its outgoing half-edges (the origin of the twin).
pub open spec fn vertex_arcs(vertices: Seq<FBGVertex>, hs: Seq<FBGHalfEdge>) -> Seq<Seq<usize>> {
    Seq::new(vertices.len(), |v: int| vertices[v].outgoing@.map_values(|h: usize| hs[hs[h as int].twin as int].origin))
}

/// Half-edge `i` sits in its twin pair (2k, 2k+1), knows its index, leaves a
/// vertex below `nv` other than the one its twin leaves, runs forward exactly when `i` is even, shares its edge
/// with its twin, and is neither linked nor used.
pub open spec fn he_paired(hs: Seq<FBGHalfEdge>, i: int, nv: int) -> bool {
    let twin = if i % 2 == 0 { i + 1 } else { i - 1 };
    &&& hs[i].id == i
    &&& hs[i].twin == twin
    &&& 0 <= twin < hs.len()
    &&& hs[i].origin < nv
    &&& hs[i].origin != hs[twin].origin
    &&& hs[i].forward == (i % 2 == 0)
    &&& hs[i].edge == hs[twin].edge
    &&& hs[i].next == NO_NEXT
    &&& !hs[i].used
}

/// Every half-edge is paired with its twin (see `he_paired`).
pub open spec fn paired(hs: Seq<FBGHalfEdge>, nv: int) -> bool {
    &&& hs.len() % 2 == 0
    &&& forall|i: int| 0 <= i < hs.len() ==> #[trigger] he_paired(hs, i, nv)
}

proof fn lemma_paired_update(hs: Seq<FBGHalfEdge>, nv: int, p: int, st: ShapesOpStatus)
    requires
        paired(hs, nv),
        0 <= p < hs.len(),
    ensures
        paired(hs.update(p, FBGHalfEdge { status: st, ..hs[p] }), nv),
{
    let h2 = hs.update(p, FBGHalfEdge { status: st, ..hs[p] });
    assert forall|i: int| 0 <= i < h2.len() implies #[trigger] he_paired(h2, i, nv) by {
        assert(he_paired(hs, i, nv));
        let twin = if i % 2 == 0 { i + 1 } else { i - 1 };
        assert(h2[twin].origin == hs[twin].origin);
    }
}

proof fn lemma_paired_push(hs: Seq<FBGHalfEdge>, nv: int, a: FBGHalfEdge, b: FBGHalfEdge)
    requires
        paired(hs, nv),
        a.id == hs.len(),
        a.twin == hs.len() + 1,
        b.id == hs.len() + 1,
        b.twin == hs.len(),
        a.origin < nv,
        b.origin < nv,
        a.origin != b.origin,
        a.forward,
        !b.forward,
        a.edge == b.edge,
        a.next == NO_NEXT,
        b.next == NO_NEXT,
        !a.used,
        !b.used,
    ensures
        paired(hs.push(a).push(b), nv),
{
    let h2 = hs.push(a).push(b);
    assert forall|i: int| 0 <= i < h2.len() implies #[trigger] he_paired(h2, i, nv) by {
        if i < hs.len() {
            assert(he_paired(hs, i, nv));
            let twin = if i % 2 == 0 { i + 1 } else { i - 1 };
            assert(h2[twin] == hs[twin]);
        }
    }
}

proof fn lemma_half_edges_paired(uses: Seq<(EdgeUse, ShapesOpStatus)>, vs: Seq<u64>, n: int)
    requires
        0 <= n <= uses.len(),
        2 * uses.len() < usize::MAX,
        vs.len() <= usize::MAX,
    ensures
        paired(half_edges_upto(uses, vs, n), vs.len() as int),
    decreases n,
{
    if n > 0 {
        lemma_half_edges_paired(uses, vs, n - 1);
        lemma_half_edges_len(uses, vs, n - 1);
        let hs = half_edges_upto(uses, vs, n - 1);
        let (u, st) = uses[n - 1];
        let fi = index_in(vs, u.front);
        let bi = index_in(vs, u.back);
        if !vs.contains(u.front) || !vs.contains(u.back) || fi == bi {
        } else {
            assert(0 <= fi < vs.len() && vs[fi] == u.front);
            assert(0 <= bi < vs.len() && vs[bi] == u.back);
            match find_half_edge(hs, u.edge, u.forward, hs.len() as int) {
                Some(p) => {
                    lemma_find_range(hs, u.edge, u.forward, hs.len() as int);
                    if st != ShapesOpStatus::Unknown {
                        lemma_paired_update(hs, vs.len() as int, p, st);
                    }
                },
                None => {
                    let id = hs.len();
                    lemma_paired_push(
                        hs,
                        vs.len() as int,
                        FBGHalfEdge {
                            id: id as usize,
                            origin: fi as usize,
                            twin: (id + 1) as usize,
                            next: NO_NEXT,
                            edge: u.edge,
                            forward: true,
                            status: st,
                            used: false,
                        },
                        FBGHalfEdge {
                            id: (id + 1) as usize,
                            origin: bi as usize,
                            twin: id as usize,
                            next: NO_NEXT,
                            edge: u.edge,
                            forward: false,
                            status: st,
                            used: false,
                        },
                    );
                },
            }
        }
    }
}

proof fn lemma_outgoing_props(hs: Seq<FBGHalfEdge>, v: int, n: int)
    requires
        0 <= n <= hs.len(),
        hs.len() <= usize::MAX,
    ensures
        forall|k: int|
            0 <= k < outgoing_upto(hs, v, n).len() ==> #[trigger] outgoing_upto(hs, v, n)[k] < n && hs[outgoing_upto(
                hs,
                v,
                n,
            )[k] as int].origin == v,
    decreases n,
{
    if n > 0 {
        lemma_outgoing_props(hs, v, n - 1);
        let prev = outgoing_upto(hs, v, n - 1);
        let cur = outgoing_upto(hs, v, n);
        assert forall|k: int| 0 <= k < cur.len() implies #[trigger] cur[k] < n && hs[cur[k] as int].origin == v by {
            if k < prev.len() {
                assert(cur[k] == prev[k]);
            }
        }
    }
}

proof fn lemma_from_loops_partition(vertices: Seq<FBGVertex>, ids: Seq<u64>, hs: Seq<FBGHalfEdge>)
    requires
        vertices_match(vertices, ids, hs),
        paired(hs, vertices.len() as int),
        hs.len() <= usize::MAX,
    ensures
        outgoing_partition(vertices, hs),
        twins_involutive(hs),
{
    reveal(outgoing_partition);
    reveal(twins_involutive);
    assert forall|v: int| 0 <= v < vertices.len() implies (#[trigger] vertices[v]).outgoing@.no_duplicates() by {
        lemma_outgoing_complete(hs, v, hs.len() as int);
    }
    assert forall|v: int, k: int|
        0 <= v < vertices.len() && 0 <= k < vertices[v].outgoing@.len() implies hs[#[trigger] vertices[v].outgoing@[k] as int].origin
            == v by {
        lemma_outgoing_props(hs, v, hs.len() as int);
        assert(vertices[v].outgoing@ == outgoing_of(hs, v));
    }
    assert forall|i: int| 0 <= i < hs.len() implies vertices[(#[trigger] hs[i]).origin as int].outgoing@.contains(i as usize) by {
        assert(he_paired(hs, i, vertices.len() as int));
        let v = hs[i].origin as int;
        lemma_outgoing_complete(hs, v, hs.len() as int);
        assert(vertices[v].outgoing@ == outgoing_of(hs, v));
    }
    assert forall|i: int| 0 <= i < hs.len() implies hs[(#[trigger] hs[i]).twin as int].twin == i by {
        assert(he_paired(hs, i, vertices.len() as int));
        let t = hs[i].twin as int;
        assert(he_paired(hs, t, vertices.len() as int));
    }
}

proof fn lemma_outgoing_complete(hs: Seq<FBGHalfEdge>, v: int, n: int)
    requires
        0 <= n <= hs.len(),
        hs.len() <= usize::MAX,
    ensures
        outgoing_upto(hs, v, n).no_duplicates(),
        forall|i: int| 0 <= i < n && hs[i].origin == v ==> outgoing_upto(hs, v, n).contains(i as usize),
    decreases n,
{
    if n > 0 {
        lemma_outgoing_complete(hs, v, n - 1);
        lemma_outgoing_props(hs, v, n - 1);
        let prev = outgoing_upto(hs, v, n - 1);
        let cur = outgoing_upto(hs, v, n);
        if hs[n - 1].origin == v {
            assert forall|a: int, b: int| 0 <= a < b < cur.len() implies cur[a] != cur[b] by {
                if b == prev.len() {
                    assert(cur[a] == prev[a]);
                    assert(prev[a] < n - 1);
                } else {
                    assert(cur[a] == prev[a] && cur[b] == prev[b]);
                }
            }
            assert forall|i: int| 0 <= i < n && hs[i].origin == v implies cur.contains(i as usize) by {
                if i < n - 1 {
                    let k = choose|k: int| 0 <= k < prev.len() && prev[k] == i as usize;
                    assert(cur[k] == prev[k]);
                } else {
                    assert(cur[prev.len() as int] == (n - 1) as usize);
                }
            }
        }
    }
}

impl FaceBoundaryGraph {
    /// The unlinked graph of a face's boundary loops: one vertex per distinct
    /// vertex (in order of first occurrence), one twin pair of half-edges per
    /// edge (see `half_edges_upto`), and each vertex's outgoing half-edges in
    /// index order; no next pointer is set yet. `None` when no half-edge
    /// results. Callers read the numbering from it to sort each vertex's
    /// outgoing half-edges by departure angle, then build the graph with
    /// `from_loops`.
    pub fn unlinked_from_loops(loops: &[BoundaryWireTopo]) -> (r: Option<Self>)
        requires
            2 * loop_uses(loops@).len() < usize::MAX,
        ensures
            r is None <==> graph_half_edges(loops@).len() == 0,
            r matches Some(g) ==> {
                &&& g.half_edges@ == graph_half_edges(loops@)
                &&& vertices_match(g.vertices@, graph_vertex_ids(loops@), g.half_edges@)
                &&& paired(g.half_edges@, g.vertices@.len() as int)
                &&& links_in_range(g.vertices@, g.half_edges@)
                &&& outgoing_partition(g.vertices@, g.half_edges@)
                &&& twins_involutive(g.half_edges@)
            },
    {
        let all = flat_loop_vertices(loops);
        let vs = distinct_vertices(&all);
        let uses = flat_loop_uses(loops);
        proof {
            lemma_dedup_props(all@, all@.len() as int);
        }
        let ghost vsv = vs@;
        let mut hs: Vec<FBGHalfEdge> = Vec::new();
        let mut i: usize = 0;
        while i < uses.len()
            invariant
                i <= uses@.len(),
                uses@ == loop_uses(loops@),
                2 * uses@.len() < usize::MAX,
                vs@ == vsv,
                vsv.no_duplicates(),
                hs@ == half_edges_upto(uses@, vsv, i as int),
            decreases uses@.len() - i,
        {
            proof {
                lemma_half_edges_len(uses@, vsv, i as int);
            }
            let (u, st) = uses[i];
            let ghost fi = index_in(vsv, u.front);
            let ghost bi = index_in(vsv, u.back);
            match (find_index(&vs, u.front), find_index(&vs, u.back)) {
                (Some(f), Some(b)) => {
                    proof {
                        assert(vsv.contains(u.front));
                        assert(vsv.contains(u.back));
                        assert(vsv[fi] == u.front);
                        assert(vsv[bi] == u.back);
                        assert(fi == f as int);
                        assert(bi == b as int);
                    }
                    if f != b {
                        match find_half_edge_exec(&hs, u.edge, u.forward) {
                            Some(p) => {
                                if st != ShapesOpStatus::Unknown {
                                    let old_he = hs[p];
                                    hs.set(p, FBGHalfEdge { status: st, ..old_he });
                                }
                            },
                            None => {
                                let id = hs.len();
                                hs.push(
                                    FBGHalfEdge {
                                        id,
                                        origin: f,
                                        twin: id + 1,
                                        next: NO_NEXT,
                                        edge: u.edge,
                                        forward: true,
                                        status: st,
                                        used: false,
                                    },
                                );
                                hs.push(
                                    FBGHalfEdge {
                                        id: id + 1,
                                        origin: b,
                                        twin: id,
                                        next: NO_NEXT,
                                        edge: u.edge,
                                        forward: false,
                                        status: st,
                                        used: false,
                                    },
                                );
                            },
                        }
                    }
                },
                _ => {},
            }
            i = i + 1;
        }
        if hs.len() == 0 {
            return None;
        }
        let vertices = build_vertices(&vs, &hs);
        let nv = vs.len();
        proof {
            assert(vsv.len() == nv);
            lemma_half_edges_paired(uses@, vsv, uses@.len() as int);
            assert forall|v: int, k: int|
                0 <= v < vertices@.len() && 0 <= k < vertices@[v].outgoing@.len() implies #[trigger] vertices@[v].outgoing@[k]
                    < hs@.len() by {
                lemma_outgoing_props(hs@, v, hs@.len() as int);
                assert(vertices@[v].outgoing@ == outgoing_of(hs@, v));
            }
            assert forall|j: int| 0 <= j < hs@.len() implies (#[trigger] hs@[j]).twin < hs@.len() && hs@[j].origin
                < vertices@.len() by {
                assert(he_paired(hs@, j, vsv.len() as int));
            }
            lemma_from_loops_partition(vertices@, vsv, hs@);
        }
        Some(FaceBoundaryGraph { vertices, half_edges: hs })
    }
}


/// Half-edge `he` with next pointer `n`.
pub open spec fn with_next(he: FBGHalfEdge, n: usize) -> FBGHalfEdge {
    FBGHalfEdge { next: n, ..he }
}

/// The first position of `x` in `s` (meaningful when `s` contains `x`).
pub open spec fn first_pos(s: Seq<usize>, x: usize) -> int {
    choose|p: int| 0 <= p < s.len() && s[p] == x && forall|j: int| 0 <= j < p ==> s[j] != x
}

/// The next pointer that linking gives half-edge `i`: at the vertex where `i`
/// ends, the outgoing half-edge just before `i`'s twin in the (angularly
/// sorted) outgoing list, cyclically — the face to the left of `i` is traced;
/// the pointer stays as it was when the twin is not in that list.
pub open spec fn linked_next(vertices: Seq<FBGVertex>, hs: Seq<FBGHalfEdge>, i: int) -> usize {
    let t = hs[i].twin;
    let out = vertices[hs[t as int].origin as int].outgoing@;
    if out.contains(t) {
        let p = first_pos(out, t);
        if p == 0 {
            out[out.len() - 1]
        } else {
            out[p - 1]
        }
    } else {
        hs[i].next
    }
}

/// The position of `x` in `s`, searching from the front.
fn position_in(s: &Vec<usize>, x: usize) -> (r: Option<usize>)
    ensures
        r matches Some(p) ==> p < s@.len() && p == first_pos(s@, x) && s@.contains(x),
        r is None ==> !s@.contains(x),
{
    let mut j: usize = 0;
    while j < s.len()
        invariant
            j <= s@.len(),
            forall|k: int| 0 <= k < j ==> s@[k] != x,
        decreases s@.len() - j,
    {
        if s[j] == x {
            proof {
                let p = first_pos(s@, x);
                assert(exists|q: int| 0 <= q < s@.len() && s@[q] == x && forall|k: int| 0 <= k < q ==> s@[k] != x) by {
                    assert(0 <= j < s@.len() && s@[j as int] == x && forall|k: int| 0 <= k < j ==> s@[k] != x);
                }
                assert(p == j) by {
                    if p < j {
                        assert(s@[p] != x);
                    } else if p > j {
                        assert(s@[j as int] != x);
                    }
                }
                assert(s@.contains(x));
            }
            return Some(j);
        }
        j = j + 1;
    }
    None
}

impl FaceBoundaryGraph {
    /// Whether every vertex can be reached from vertex 0 along half-edges (an
    /// empty graph counts as connected).
    pub fn is_connected(&self) -> (r: bool)
        requires
            links_in_range(self.vertices@, self.half_edges@),
        ensures
            r <==> (self.vertices@.len() == 0 || forall|v: int|
                0 <= v < self.vertices@.len() ==> reachable(vertex_arcs(self.vertices@, self.half_edges@), 0, v)),
    {
        let n = self.vertices.len();
        if n == 0 {
            return true;
        }
        let ghost arcs = vertex_arcs(self.vertices@, self.half_edges@);
        let mut adj: Vec<Vec<usize>> = Vec::new();
        let mut v: usize = 0;
        while v < n
            invariant
                n == self.vertices@.len(),
                links_in_range(self.vertices@, self.half_edges@),
                arcs == vertex_arcs(self.vertices@, self.half_edges@),
                v <= n,
                adj@.len() == v,
                forall|j: int| 0 <= j < v ==> (#[trigger] adj@[j])@ == arcs[j],
            decreases n - v,
        {
            let out = &self.vertices[v].outgoing;
            let ghost target = arcs[v as int];
            let mut row: Vec<usize> = Vec::new();
            let mut k: usize = 0;
            while k < out.len()
                invariant
                    n == self.vertices@.len(),
                    links_in_range(self.vertices@, self.half_edges@),
                    v < n,
                    *out == self.vertices@[v as int].outgoing,
                    target == out@.map_values(|h: usize| self.half_edges@[self.half_edges@[h as int].twin as int].origin),
                    k <= out@.len(),
                    row@ == target.take(k as int),
                decreases out@.len() - k,
            {
                let h = out[k];
                assert(h < self.half_edges@.len());
                let t = self.half_edges[h].twin;
                row.push(self.half_edges[t].origin);
                assert(target.take(k + 1) =~= target.take(k as int).push(target[k as int]));
                k = k + 1;
            }
            assert(target.take(out@.len() as int) =~= target);
            adj.push(row);
            v = v + 1;
        }
        assert(adj_view(adj@) =~= arcs);
        proof {
            assert forall|a: int, k: int| 0 <= a < arcs.len() && 0 <= k < arcs[a].len() implies #[trigger] arcs[a][k] < arcs.len() by {
                let h = self.vertices@[a].outgoing@[k];
                assert(h < self.half_edges@.len());
                let t = self.half_edges@[h as int].twin;
                assert(self.half_edges@[t as int].origin < self.vertices@.len());
            }
        }
        let (visited, count) = reachable_from(&adj, 0);
        proof {
            lemma_count_true_all(visited@);
            assert forall|w: int| 0 <= w < n implies (visited@[w] <==> reachable(arcs, 0, w)) by {
                assert(visited@[w] <==> reachable(adj_view(adj@), 0, w));
            }
        }
        count == n
    }

    /// Links every half-edge to its successor on the face to its left (see
    /// `linked_next`); nothing else changes.
    pub fn link_next(&mut self)
        requires
            links_in_range(old(self).vertices@, old(self).half_edges@),
        ensures
            final(self).vertices@ == old(self).vertices@,
            final(self).half_edges@.len() == old(self).half_edges@.len(),
            forall|i: int|
                0 <= i < old(self).half_edges@.len() ==> #[trigger] final(self).half_edges@[i] == with_next(
                    old(self).half_edges@[i],
                    linked_next(old(self).vertices@, old(self).half_edges@, i),
                ),
    {
        let ghost hs0 = self.half_edges@;
        let mut i: usize = 0;
        while i < self.half_edges.len()
            invariant
                self.vertices@ == old(self).vertices@,
                hs0 == old(self).half_edges@,
                links_in_range(self.vertices@, hs0),
                self.half_edges@.len() == hs0.len(),
                i <= hs0.len(),
                forall|j: int|
                    0 <= j < i ==> #[trigger] self.half_edges@[j] == with_next(hs0[j], linked_next(self.vertices@, hs0, j)),
                forall|j: int| i <= j < hs0.len() ==> #[trigger] self.half_edges@[j] == hs0[j],
            decreases hs0.len() - i,
        {
            let twin = self.half_edges[i].twin;
            assert(twin < hs0.len());
            let origin = self.half_edges[twin].origin;
            assert(origin == hs0[twin as int].origin);
            let out = &self.vertices[origin].outgoing;
            let n = out.len();
            if n > 0 {
                match position_in(out, twin) {
                    Some(pos) => {
                        let prev_pos = if pos == 0 { n - 1 } else { pos - 1 };
                        let nxt = out[prev_pos];
                        let old_he = self.half_edges[i];
                        self.half_edges.set(i, FBGHalfEdge { next: nxt, ..old_he });
                    },
                    None => {},
                }
            }
            i = i + 1;
        }
    }

    /// Finishes a graph whose outgoing lists are in angular order: `None` when
    /// it is not connected; otherwise links the next pointers, and gives `None`
    /// when some half-edge is left without a successor.
    pub fn link(self) -> (r: Option<Self>)
        requires
            links_in_range(self.vertices@, self.half_edges@),
        ensures
            r is Some <==> {
                &&& (self.vertices@.len() == 0 || forall|v: int|
                    0 <= v < self.vertices@.len() ==> reachable(vertex_arcs(self.vertices@, self.half_edges@), 0, v))
                &&& forall|i: int|
                    0 <= i < self.half_edges@.len() ==> linked_next(self.vertices@, self.half_edges@, i) != NO_NEXT
            },
            r matches Some(g) ==> {
                &&& g.vertices@ == self.vertices@
                &&& g.half_edges@.len() == self.half_edges@.len()
                &&& forall|i: int|
                    0 <= i < self.half_edges@.len() ==> #[trigger] g.half_edges@[i] == with_next(self.half_edges@[i], linked_next(self.vertices@, self.half_edges@, i))
            },
    {
        let mut g = self;
        if !g.is_connected() {
            return None;
        }
        let ghost hs0 = g.half_edges@;
        g.link_next();
        let mut i: usize = 0;
        while i < g.half_edges.len()
            invariant
                g.vertices@ == self.vertices@,
                hs0 == self.half_edges@,
                i <= g.half_edges@.len(),
                g.half_edges@.len() == hs0.len(),
                forall|j: int| 0 <= j < i ==> linked_next(g.vertices@, hs0, j) != NO_NEXT,
                forall|j: int|
                    0 <= j < hs0.len() ==> #[trigger] g.half_edges@[j] == with_next(hs0[j], linked_next(g.vertices@, hs0, j)),
            decreases hs0.len() - i,
        {
            if g.half_edges[i].next == NO_NEXT {
                assert(g.half_edges@[i as int].next == linked_next(g.vertices@, hs0, i as int));
                return None;
            }
            assert(g.half_edges@[i as int].next == linked_next(g.vertices@, hs0, i as int));
            i = i + 1;
        }
        Some(g)
    }
}


/// The outgoing orders handed to `from_loops` fit the graph of `loops`: one
/// list per vertex, each listing the half-edges that leave that vertex once.
pub open spec fn orders_fit(loops: Seq<BoundaryWireTopo>, orders: Seq<Vec<usize>>) -> bool {
    &&& orders.len() == graph_vertex_ids(loops).len()
    &&& forall|v: int| 0 <= v < orders.len() ==> is_reordering(outgoing_of(graph_half_edges(loops), v), #[trigger] orders[v]@)
}

/// The vertex-to-vertex arcs of the graph of `loops` with outgoing lists
/// `orders`: from each vertex to the end of each of its outgoing half-edges.
pub open spec fn ordered_arcs(loops: Seq<BoundaryWireTopo>, orders: Seq<Vec<usize>>) -> Seq<Seq<usize>> {
    let hs = graph_half_edges(loops);
    Seq::new(orders.len(), |v: int| orders[v]@.map_values(|h: usize| hs[hs[h as int].twin as int].origin))
}

/// Every vertex of the graph of `loops` can be reached from vertex 0.
pub open spec fn loops_connected(loops: Seq<BoundaryWireTopo>, orders: Seq<Vec<usize>>) -> bool {
    forall|v: int| 0 <= v < orders.len() ==> reachable(ordered_arcs(loops, orders), 0, v)
}

/// A copy of a list of indices.
fn copy_indices(s: &Vec<usize>) -> (r: Vec<usize>)
    ensures
        r@ == s@,
{
    let mut r: Vec<usize> = Vec::new();
    let mut i: usize = 0;
    while i < s.len()
        invariant
            i <= s@.len(),
            r@ == s@.take(i as int),
        decreases s@.len() - i,
    {
        r.push(s[i]);
        assert(s@.take(i + 1) =~= s@.take(i as int).push(s@[i as int]));
        i = i + 1;
    }
    assert(s@.take(s@.len() as int) =~= s@);
    r
}

impl FaceBoundaryGraph {
    /// Builds the linked face boundary graph of a face's loops. `orders[v]`
    /// is the outgoing list of vertex `v` of the unlinked graph (see
    /// `unlinked_from_loops`) sorted counter-clockwise by departure angle.
    /// `None` when no half-edge results, when the orders do not fit the graph,
    /// or when some vertex cannot be reached from vertex 0 (wires that share
    /// no vertex). Otherwise every half-edge is linked to its successor on the
    /// face to its left (see `linked_next`): every next pointer names a
    /// half-edge, and no two half-edges share a successor.
    #[verifier::spinoff_prover]
    #[verifier::rlimit(40)]
    pub fn from_loops(loops: &[BoundaryWireTopo], orders: &Vec<Vec<usize>>) -> (r: Option<Self>)
        requires
            2 * loop_uses(loops@).len() < usize::MAX,
        ensures
            r is Some <==> {
                &&& graph_half_edges(loops@).len() > 0
                &&& orders_fit(loops@, orders@)
                &&& loops_connected(loops@, orders@)
            },
            r matches Some(g) ==> {
                &&& g.vertices@.len() == orders@.len()
                &&& forall|k: int|
                    0 <= k < orders@.len() ==> {
                        &&& (#[trigger] g.vertices@[k]).id == k
                        &&& g.vertices@[k].vertex == graph_vertex_ids(loops@)[k]
                        &&& g.vertices@[k].outgoing@ == orders@[k]@
                    }
                &&& g.half_edges@.len() == graph_half_edges(loops@).len()
                &&& forall|i: int|
                    0 <= i < g.half_edges@.len() ==> #[trigger] g.half_edges@[i] == with_next(
                        graph_half_edges(loops@)[i],
                        linked_next(g.vertices@, graph_half_edges(loops@), i),
                    )
                &&& forall|i: int| 0 <= i < g.half_edges@.len() ==> (#[trigger] g.half_edges@[i]).next < g.half_edges@.len()
                &&& nexts_in_range(g.half_edges@)
                &&& next_injective(g.half_edges@)
                &&& linked_graph_law(g.vertices@, g.half_edges@)
            },
    {
        let ghost hs = graph_half_edges(loops@);
        let ghost ids = graph_vertex_ids(loops@);
        let mut g = match FaceBoundaryGraph::unlinked_from_loops(loops) {
            Some(g) => g,
            None => {
                return None;
            },
        };
        let nv = g.vertices.len();
        if orders.len() != nv {
            return None;
        }
        let ghost base = g.vertices@;
        let mut v: usize = 0;
        while v < nv
            invariant
                nv == base.len(),
                nv == orders@.len(),
                vertices_match(base, ids, hs),
                hs == graph_half_edges(loops@),
                ids == graph_vertex_ids(loops@),
                hs.len() > 0,
                g.half_edges@ == hs,
                g.vertices@.len() == nv,
                v <= nv,
                forall|w: int| v <= w < nv ==> #[trigger] g.vertices@[w] == base[w],
                forall|w: int|
                    0 <= w < v ==> {
                        &&& (#[trigger] g.vertices@[w]).id == w
                        &&& g.vertices@[w].vertex == ids[w]
                        &&& g.vertices@[w].outgoing@ == orders@[w]@
                    },
                forall|w: int| 0 <= w < v ==> is_reordering(outgoing_of(hs, w), #[trigger] orders@[w]@),
                links_in_range(g.vertices@, hs),
                outgoing_partition(g.vertices@, hs),
                twins_involutive(hs),
                paired(hs, nv as int),
            decreases nv - v,
        {
            let order = copy_indices(&orders[v]);
            assert(g.vertices@[v as int] == base[v as int]);
            assert(base[v as int].outgoing@ == outgoing_of(hs, v as int));
            if !g.set_outgoing_order(v, order) {
                assert(!is_reordering(outgoing_of(hs, v as int), orders@[v as int]@));
                return None;
            }
            assert(base[v as int].id == v && base[v as int].vertex == ids[v as int]);
            v = v + 1;
        }
        let ghost vs = g.vertices@;
        let nh = g.half_edges.len();
        proof {
            assert(nh == hs.len());
            assert(orders_fit(loops@, orders@));
            assert(vertex_arcs(vs, hs) =~= ordered_arcs(loops@, orders@)) by {
                assert forall|w: int| 0 <= w < nv implies #[trigger] vertex_arcs(vs, hs)[w] == ordered_arcs(loops@, orders@)[w] by {
                    assert(vs[w].outgoing@ == orders@[w]@);
                }
            }
            assert forall|i: int| 0 <= i < hs.len() implies linked_next(vs, hs, i) != NO_NEXT by {
                lemma_linked_next_at(vs, hs, i);
            }
        }
        let r = g.link();
        proof {
            if r is Some {
                let lg = r->0;
                assert forall|i: int| 0 <= i < lg.half_edges@.len() implies (#[trigger] lg.half_edges@[i]).next < lg.half_edges@.len() by {
                    lemma_linked_next_at(vs, hs, i);
                }
                linking_gives_permutation(vs, hs, lg.half_edges@);
                lemma_linked_law(vs, hs, lg.half_edges@, nv as int);
            }
        }
        r
    }
}

/// `order` lists the entries of `out` once each, in some order.
pub open spec fn is_reordering(out: Seq<usize>, order: Seq<usize>) -> bool {
    &&& order.len() == out.len()
    &&& order.no_duplicates()
    &&& forall|x: usize| order.contains(x) <==> out.contains(x)
}

/// Whether `x` occurs in `s`.
fn contains_usize(s: &Vec<usize>, x: usize) -> (r: bool)
    ensures
        r <==> s@.contains(x),
{
    let mut j: usize = 0;
    while j < s.len()
        invariant
            j <= s@.len(),
            forall|k: int| 0 <= k < j ==> s@[k] != x,
        decreases s@.len() - j,
    {
        if s[j] == x {
            return true;
        }
        j = j + 1;
    }
    false
}

/// Whether `order` lists the entries of `out` once each.
fn check_reordering(out: &Vec<usize>, order: &Vec<usize>) -> (r: bool)
    ensures
        r <==> is_reordering(out@, order@),
{
    if order.len() != out.len() {
        return false;
    }
    let mut i: usize = 0;
    while i < order.len()
        invariant
            i <= order@.len(),
            forall|a: int, b: int| 0 <= a < b < i ==> order@[a] != order@[b],
            forall|a: int| 0 <= a < i ==> out@.contains(#[trigger] order@[a]),
        decreases order@.len() - i,
    {
        let x = order[i];
        let mut j: usize = 0;
        while j < i
            invariant
                i < order@.len(),
                x == order@[i as int],
                j <= i,
                forall|a: int| 0 <= a < j ==> order@[a] != x,
            decreases i - j,
        {
            if order[j] == x {
                return false;
            }
            j = j + 1;
        }
        if !contains_usize(out, x) {
            return false;
        }
        i = i + 1;
    }
    let mut k: usize = 0;
    while k < out.len()
        invariant
            k <= out@.len(),
            forall|a: int| 0 <= a < k ==> order@.contains(#[trigger] out@[a]),
        decreases out@.len() - k,
    {
        if !contains_usize(order, out[k]) {
            return false;
        }
        k = k + 1;
    }
    proof {
        assert forall|x: usize| order@.contains(x) <==> out@.contains(x) by {
            if order@.contains(x) {
                let a = choose|a: int| 0 <= a < order@.len() && order@[a] == x;
                assert(out@.contains(order@[a]));
            }
            if out@.contains(x) {
                let a = choose|a: int| 0 <= a < out@.len() && out@[a] == x;
                assert(order@.contains(out@[a]));
            }
        }
    }
    true
}

impl FaceBoundaryGraph {
    /// Replaces the outgoing list of vertex `v` by `order` (its half-edges in
    /// angular order) when `order` lists the same half-edges once each; returns
    /// whether it did. The graph is otherwise unchanged, and a graph whose
    /// outgoing lists partition its half-edges keeps doing so.
    pub fn set_outgoing_order(&mut self, v: usize, order: Vec<usize>) -> (r: bool)
        ensures
            r <==> v < old(self).vertices@.len() && is_reordering(old(self).vertices@[v as int].outgoing@, order@),
            final(self).half_edges@ == old(self).half_edges@,
            final(self).vertices@.len() == old(self).vertices@.len(),
            forall|w: int|
                0 <= w < old(self).vertices@.len() && (w != v || !r) ==> #[trigger] final(self).vertices@[w] == old(self).vertices@[w],
            r ==> final(self).vertices@[v as int].outgoing@ == order@ && final(self).vertices@[v as int].id == old(self).vertices@[v as int].id
                && final(self).vertices@[v as int].vertex == old(self).vertices@[v as int].vertex,
            r && links_in_range(old(self).vertices@, old(self).half_edges@) ==> links_in_range(final(self).vertices@, final(self).half_edges@),
            r && links_in_range(old(self).vertices@, old(self).half_edges@) && outgoing_partition(old(self).vertices@, old(self).half_edges@)
                ==> outgoing_partition(final(self).vertices@, final(self).half_edges@),
    {
        if v >= self.vertices.len() {
            return false;
        }
        if !check_reordering(&self.vertices[v].outgoing, &order) {
            return false;
        }
        let ghost old_vs = self.vertices@;
        let id = self.vertices[v].id;
        let vertex = self.vertices[v].vertex;
        self.vertices.set(v, FBGVertex { id, vertex, outgoing: order });
        proof {
            let vs = self.vertices@;
            let hs = self.half_edges@;
            if links_in_range(old_vs, hs) {
                assert forall|w: int, k: int|
                    0 <= w < vs.len() && 0 <= k < vs[w].outgoing@.len() implies #[trigger] vs[w].outgoing@[k] < hs.len() by {
                    if w == v as int {
                        let x = vs[w].outgoing@[k];
                        assert(vs[w].outgoing@.contains(x));
                        let k2 = choose|k2: int| 0 <= k2 < old_vs[w].outgoing@.len() && old_vs[w].outgoing@[k2] == x;
                        assert(old_vs[w].outgoing@[k2] < hs.len());
                    } else {
                        assert(vs[w] == old_vs[w]);
                    }
                }
            }
            if links_in_range(old_vs, hs) && outgoing_partition(old_vs, hs) {
                reveal(outgoing_partition);
                assert forall|w: int| 0 <= w < vs.len() implies (#[trigger] vs[w]).outgoing@.no_duplicates() by {
                    if w != v as int {
                        assert(vs[w] == old_vs[w]);
                    }
                }
                assert forall|w: int, k: int|
                    0 <= w < vs.len() && 0 <= k < vs[w].outgoing@.len() implies hs[#[trigger] vs[w].outgoing@[k] as int].origin
                        == w by {
                    if w == v as int {
                        let x = vs[w].outgoing@[k];
                        assert(vs[w].outgoing@.contains(x));
                        let k2 = choose|k2: int| 0 <= k2 < old_vs[w].outgoing@.len() && old_vs[w].outgoing@[k2] == x;
                        assert(hs[old_vs[w].outgoing@[k2] as int].origin == w);
                    } else {
                        assert(vs[w] == old_vs[w]);
                    }
                }
                assert forall|i: int| 0 <= i < hs.len() implies vs[(#[trigger] hs[i]).origin as int].outgoing@.contains(i as usize) by {
                    let w = hs[i].origin as int;
                    assert(w < old_vs.len());
                    assert(old_vs[w].outgoing@.contains(i as usize));
                    if w != v as int {
                        assert(vs[w] == old_vs[w]);
                    }
                }
            }
        }
        true
    }
}

/// Half-edge `he` with the used flag `u`.
pub open spec fn with_used(he: FBGHalfEdge, u: bool) -> FBGHalfEdge {
    FBGHalfEdge { used: u, ..he }
}

/// `c` is a cycle of next pointers: nonempty, within range, without repeats,
/// each element's next is the following one, and the last one's next is the
/// first.
pub open spec fn is_next_cycle(hs: Seq<FBGHalfEdge>, c: Seq<usize>) -> bool {
    &&& c.len() >= 1
    &&& forall|k: int| 0 <= k < c.len() ==> #[trigger] c[k] < hs.len()
    &&& c.no_duplicates()
    &&& forall|k: int| 0 <= k < c.len() - 1 ==> hs[#[trigger] c[k] as int].next == c[k + 1]
    &&& hs[c.last() as int].next == c[0]
}

/// Every next pointer names a half-edge.
pub open spec fn nexts_in_range(hs: Seq<FBGHalfEdge>) -> bool {
    forall|i: int| 0 <= i < hs.len() ==> (#[trigger] hs[i]).next < hs.len()
}

/// No two half-edges share a successor (the next pointers form a permutation).
#[verifier::opaque]
pub open spec fn next_injective(hs: Seq<FBGHalfEdge>) -> bool {
    forall|i: int, j: int| 0 <= i < hs.len() && 0 <= j < hs.len() && #[trigger] hs[i].next == #[trigger] hs[j].next ==> i == j
}

/// The predecessor of a used half-edge is used.
#[verifier::opaque]
pub open spec fn used_pred_closed(hs: Seq<FBGHalfEdge>) -> bool {
    forall|x: int, y: int|
        #![trigger hs[x].next, hs[y].used]
        0 <= x < hs.len() && 0 <= y < hs.len() && hs[y].used && hs[x].next == y ==> hs[x].used
}

/// `x` occurs in one of the cycles.
pub open spec fn in_cycles(cs: Seq<Seq<usize>>, x: usize) -> bool {
    exists|c: int, k: int| 0 <= c < cs.len() && 0 <= k < cs[c].len() && #[trigger] cs[c][k] == x
}

/// The views of a list of cycles.
pub open spec fn cycles_view(cs: Seq<Vec<usize>>) -> Seq<Seq<usize>> {
    cs.map_values(|c: Vec<usize>| c@)
}

/// A list without repeats whose entries are below `n` has at most `n` entries.
pub(crate) proof fn lemma_distinct_below(s: Seq<usize>, n: nat)
    requires
        s.no_duplicates(),
        forall|i: int| 0 <= i < s.len() ==> s[i] < n,
    ensures
        s.len() <= n,
    decreases n,
{
    if n == 0 {
        if s.len() > 0 {
            assert(s[0] < 0);
        }
    } else {
        let m = (n - 1) as usize;
        if s.contains(m) {
            let k = choose|k: int| 0 <= k < s.len() && s[k] == m;
            let t = s.remove(k);
            assert forall|i: int| 0 <= i < t.len() implies t[i] < n - 1 by {
                if i < k {
                    assert(t[i] == s[i]);
                    assert(s[i] != s[k]);
                } else {
                    assert(t[i] == s[i + 1]);
                    assert(s[i + 1] != s[k]);
                }
            }
            assert forall|a: int, b: int| 0 <= a < b < t.len() implies t[a] != t[b] by {
                let sa = if a < k { a } else { a + 1 };
                let sb = if b < k { b } else { b + 1 };
                assert(t[a] == s[sa] && t[b] == s[sb]);
            }
            lemma_distinct_below(t, (n - 1) as nat);
        } else {
            assert forall|i: int| 0 <= i < s.len() implies s[i] < n - 1 by {
                if s[i] == m {
                    assert(s.contains(m));
                }
            }
            lemma_distinct_below(s, (n - 1) as nat);
        }
    }
}

/// The half-edges with every member of `c` marked used.
#[verifier::opaque]
pub open spec fn marked(hs0: Seq<FBGHalfEdge>, c: Seq<usize>) -> Seq<FBGHalfEdge> {
    Seq::new(hs0.len(), |i: int| with_used(hs0[i], hs0[i].used || c.contains(i as usize)))
}

/// `c` is a walk along next pointers from `start` over half-edges that were
/// unused, without repeats.
#[verifier::opaque]
pub open spec fn walk_ok(hs0: Seq<FBGHalfEdge>, start: usize, c: Seq<usize>) -> bool {
    &&& c.no_duplicates()
    &&& forall|k: int| 0 <= k < c.len() ==> #[trigger] c[k] < hs0.len()
    &&& forall|k: int| 0 <= k < c.len() ==> !hs0[#[trigger] c[k] as int].used
    &&& forall|k: int| 0 <= k < c.len() - 1 ==> hs0[#[trigger] c[k] as int].next == c[k + 1]
    &&& c.len() > 0 ==> c[0] == start
}

proof fn lemma_marked_at(hs0: Seq<FBGHalfEdge>, c: Seq<usize>, i: usize)
    requires
        i < hs0.len(),
    ensures
        marked(hs0, c).len() == hs0.len(),
        marked(hs0, c)[i as int] == with_used(hs0[i as int], hs0[i as int].used || c.contains(i)),
{
    reveal(marked);
}

proof fn lemma_walk_facts(hs0: Seq<FBGHalfEdge>, start: usize, c: Seq<usize>)
    requires
        walk_ok(hs0, start, c),
    ensures
        c.len() > 0 ==> c[0] == start && c.last() < hs0.len(),
        c.no_duplicates(),
        forall|k: int| 0 <= k < c.len() ==> #[trigger] c[k] < hs0.len(),
        forall|k: int| 0 <= k < c.len() ==> !hs0[#[trigger] c[k] as int].used,
        forall|k: int| 0 <= k < c.len() - 1 ==> hs0[#[trigger] c[k] as int].next == c[k + 1],
{
    reveal(walk_ok);
}

proof fn lemma_walk_push(hs0: Seq<FBGHalfEdge>, start: usize, c: Seq<usize>, x: usize)
    requires
        hs0.len() <= usize::MAX,
        walk_ok(hs0, start, c),
        x < hs0.len(),
        !hs0[x as int].used,
        !c.contains(x),
        c.len() > 0 ==> hs0[c.last() as int].next == x,
        c.len() == 0 ==> x == start,
    ensures
        walk_ok(hs0, start, c.push(x)),
        marked(hs0, c.push(x)) == marked(hs0, c).update(x as int, with_used(hs0[x as int], true)),
{
    reveal(walk_ok);
    reveal(marked);
    let d = c.push(x);
    assert forall|y: usize| d.contains(y) <==> (c.contains(y) || y == x) by {
        crate::topology::lemma_push_contains_usize(c, x, y);
    }
    assert forall|a: int, b: int| 0 <= a < b < d.len() implies d[a] != d[b] by {
        if b == c.len() {
            assert(d[a] == c[a]);
            assert(c.contains(c[a]));
        } else {
            assert(d[a] == c[a] && d[b] == c[b]);
        }
    }
    assert forall|k: int| 0 <= k < d.len() - 1 implies hs0[#[trigger] d[k] as int].next == d[k + 1] by {
        if k < c.len() - 1 {
            assert(d[k] == c[k] && d[k + 1] == c[k + 1]);
        } else {
            assert(d[k] == c.last());
        }
    }
    assert forall|i: int| 0 <= i < hs0.len() implies #[trigger] marked(hs0, d)[i] == marked(hs0, c).update(
        x as int,
        with_used(hs0[x as int], true),
    )[i] by {
        if i != x as int {
            assert(d.contains(i as usize) == c.contains(i as usize));
        }
    }
    assert(marked(hs0, d) =~= marked(hs0, c).update(x as int, with_used(hs0[x as int], true)));
}

proof fn lemma_walk_fresh(hs0: Seq<FBGHalfEdge>, start: usize, c: Seq<usize>, y: usize)
    requires
        walk_ok(hs0, start, c),
        c.len() > 0,
        y < hs0.len(),
        y == hs0[c.last() as int].next,
        y != start,
        next_injective(hs0),
        used_pred_closed(hs0),
    ensures
        !hs0[y as int].used,
        !c.contains(y),
{
    reveal(walk_ok);
    reveal(next_injective);
    reveal(used_pred_closed);
    let last = c.last();
    assert(!hs0[last as int].used);
    if hs0[y as int].used {
        assert(hs0[last as int].next == y);
    }
    if c.contains(y) {
        let j = choose|j: int| 0 <= j < c.len() && c[j] == y;
        if j > 0 {
            assert(hs0[c[j - 1] as int].next == c[j]);
            assert(c[j - 1] == last);
        }
    }
}

impl FaceBoundaryGraph {
    /// Follows next pointers from `start`, marking half-edges used, until it
    /// comes back to `start` (closed), meets a used half-edge, or has taken
    /// more steps than there are half-edges. Returns the half-edges visited and
    /// whether the walk closed.
    fn trace_from(&mut self, start: usize) -> (r: (Vec<usize>, bool))
        requires
            nexts_in_range(old(self).half_edges@),
            old(self).half_edges@.len() < usize::MAX,
            start < old(self).half_edges@.len(),
            !old(self).half_edges@[start as int].used,
        ensures
            final(self).vertices@ == old(self).vertices@,
            final(self).half_edges@ == marked(old(self).half_edges@, r.0@),
            walk_ok(old(self).half_edges@, start, r.0@),
            r.0@.len() >= 1,
            r.1 ==> old(self).half_edges@[r.0@.last() as int].next == start,
            !r.1 ==> old(self).half_edges@[old(self).half_edges@[r.0@.last() as int].next as int].used || r.0@.contains(
                old(self).half_edges@[r.0@.last() as int].next,
            ),
            !r.1 ==> old(self).half_edges@[r.0@.last() as int].next != start,
            next_injective(old(self).half_edges@) && used_pred_closed(old(self).half_edges@) ==> r.1,
    {
        let ghost hs0 = self.half_edges@;
        let n = self.half_edges.len();
        let max_steps = n + 1;
        let mut cycle: Vec<usize> = Vec::new();
        let mut current = start;
        let mut steps: usize = 0;
        let mut closed = false;
        let mut stop = false;
        proof {
            reveal(marked);
            reveal(walk_ok);
            assert(marked(hs0, cycle@) =~= hs0);
        }
        while !stop
            invariant
                n == hs0.len(),
                max_steps == n + 1,
                hs0 == old(self).half_edges@,
                self.vertices@ == old(self).vertices@,
                nexts_in_range(hs0),
                start < n,
                !hs0[start as int].used,
                self.half_edges@ == marked(hs0, cycle@),
                walk_ok(hs0, start, cycle@),
                current < n,
                steps == cycle@.len(),
                steps <= n,
                cycle@.len() == 0 ==> current == start && !stop,
                cycle@.len() > 0 ==> hs0[cycle@.last() as int].next == current,
                closed ==> stop && current == start && cycle@.len() > 0,
                stop ==> cycle@.len() > 0,
                !stop && cycle@.len() > 0 ==> current != start,
                next_injective(hs0) && used_pred_closed(hs0) ==> (stop ==> closed),
                stop && !closed ==> hs0[current as int].used || cycle@.contains(current),
                stop && !closed ==> current != start,
            decreases max_steps + 1 - steps + if stop { 0int } else { 1int },
        {
            proof {
                lemma_marked_at(hs0, cycle@, current);
                lemma_walk_facts(hs0, start, cycle@);
                if next_injective(hs0) && used_pred_closed(hs0) && cycle@.len() > 0 {
                    lemma_walk_fresh(hs0, start, cycle@, current);
                }
            }
            if self.half_edges[current].used {
                proof {
                    reveal(marked);
                }
                stop = true;
            } else {
                assert(!cycle@.contains(current));
                proof {
                    lemma_walk_push(hs0, start, cycle@, current);
                }
                let ghost c0 = cycle@;
                let old_he = self.half_edges[current];
                assert(old_he == hs0[current as int]);
                let new_he = FBGHalfEdge { used: true, ..old_he };
                assert(new_he == with_used(hs0[current as int], true));
                self.half_edges.set(current, new_he);
                cycle.push(current);
                assert(cycle@ == c0.push(current));
                assert(self.half_edges@ == marked(hs0, cycle@));
                proof {
                    lemma_walk_facts(hs0, start, cycle@);
                    lemma_distinct_below(cycle@, n as nat);
                }
                current = old_he.next;
                steps = steps + 1;
                if current == start {
                    closed = true;
                    stop = true;
                } else if steps > max_steps {
                    stop = true;
                }
            }
        }
        (cycle, closed)
    }
}

/// `hs` differs from `hs0` at most in the used flags.
pub open spec fn same_but_used(hs: Seq<FBGHalfEdge>, hs0: Seq<FBGHalfEdge>) -> bool {
    &&& hs.len() == hs0.len()
    &&& forall|i: int| 0 <= i < hs0.len() ==> #[trigger] hs[i] == with_used(hs0[i], hs[i].used)
}

proof fn lemma_marked_same_but_used(hs: Seq<FBGHalfEdge>, hs0: Seq<FBGHalfEdge>, c: Seq<usize>)
    requires
        same_but_used(hs, hs0),
    ensures
        same_but_used(marked(hs, c), hs0),
        forall|i: int| 0 <= i < hs.len() ==> #[trigger] marked(hs, c)[i].used == (hs[i].used || c.contains(i as usize)),
{
    reveal(marked);
    assert forall|i: int| 0 <= i < hs0.len() implies #[trigger] marked(hs, c)[i] == with_used(hs0[i], marked(hs, c)[i].used) by {
        assert(hs[i] == with_used(hs0[i], hs[i].used));
    }
}

proof fn lemma_injective_same_nexts(hs: Seq<FBGHalfEdge>, hs0: Seq<FBGHalfEdge>)
    requires
        same_but_used(hs, hs0),
    ensures
        next_injective(hs) == next_injective(hs0),
{
    reveal(next_injective);
    assert forall|i: int| 0 <= i < hs0.len() implies #[trigger] hs[i].next == hs0[i].next by {
        assert(hs[i] == with_used(hs0[i], hs[i].used));
    }
    if next_injective(hs) {
        assert forall|i: int, j: int|
            0 <= i < hs0.len() && 0 <= j < hs0.len() && #[trigger] hs0[i].next == #[trigger] hs0[j].next implies i == j by {
            assert(hs[i].next == hs0[i].next && hs[j].next == hs0[j].next);
        }
    }
    if next_injective(hs0) {
        assert forall|i: int, j: int|
            0 <= i < hs.len() && 0 <= j < hs.len() && #[trigger] hs[i].next == #[trigger] hs[j].next implies i == j by {
            assert(hs[i].next == hs0[i].next && hs[j].next == hs0[j].next);
        }
    }
}

proof fn lemma_pred_closed_extend(hs: Seq<FBGHalfEdge>, start: usize, c: Seq<usize>)
    requires
        hs.len() <= usize::MAX,
        used_pred_closed(hs),
        next_injective(hs),
        walk_ok(hs, start, c),
        c.len() > 0,
        hs[c.last() as int].next == start,
    ensures
        used_pred_closed(marked(hs, c)),
{
    reveal(used_pred_closed);
    reveal(next_injective);
    reveal(walk_ok);
    reveal(marked);
    let m = marked(hs, c);
    assert forall|x: int, y: int|
        #![trigger m[x].next, m[y].used]
        0 <= x < m.len() && 0 <= y < m.len() && m[y].used && m[x].next == y implies m[x].used by {
        assert(m[x].next == hs[x].next);
        if !hs[y].used {
            assert(c.contains(y as usize));
            let j = choose|j: int| 0 <= j < c.len() && c[j] == y as usize;
            let p = if j == 0 { c.last() } else { c[j - 1] };
            if j > 0 {
                assert(hs[c[j - 1] as int].next == c[j]);
            }
            assert(hs[p as int].next == y);
            assert(x == p as int);
            assert(c.contains(p));
        }
    }
}

/// Half-edge `i` lies on one of the walks.
pub open spec fn on_next_walk(walks: Seq<Seq<usize>>, i: int) -> bool {
    exists|w: int, k: int| 0 <= w < walks.len() && 0 <= k < walks[w].len() && #[trigger] walks[w][k] == i
}

/// Step `k` of the walk follows the next pointer of step `k - 1`.
pub open spec fn next_step(hs: Seq<FBGHalfEdge>, wi: Seq<usize>, k: int) -> bool {
    wi[k] == hs[wi[k - 1] as int].next
}

/// The walks along next pointers that extracting the cycles makes, in order:
/// every half-edge that was unused lies on exactly one walk, and no used one
/// on any; each walk starts at the first unused half-edge on no earlier walk
/// and follows the next pointers; it stops when the next half-edge is its
/// start, or one that is used or already on a walk.
pub open spec fn next_walks(hs: Seq<FBGHalfEdge>, walks: Seq<Seq<usize>>) -> bool {
    &&& forall|w: int| 0 <= w < walks.len() ==> (#[trigger] walks[w]).len() > 0
    &&& forall|w: int, k: int|
        0 <= w < walks.len() && 0 <= k < walks[w].len() ==> #[trigger] walks[w][k] < hs.len() && !hs[walks[w][k] as int].used
    &&& forall|w1: int, k1: int, w2: int, k2: int|
        0 <= w1 < walks.len() && 0 <= k1 < walks[w1].len() && 0 <= w2 < walks.len() && 0 <= k2 < walks[w2].len() && (w1 != w2
            || k1 != k2) ==> #[trigger] walks[w1][k1] != #[trigger] walks[w2][k2]
    &&& forall|i: int| 0 <= i < hs.len() && !hs[i].used ==> #[trigger] on_next_walk(walks, i)
    &&& forall|w: int, k: int| 0 <= w < walks.len() && 1 <= k < walks[w].len() ==> #[trigger] next_step(hs, walks[w], k)
    &&& forall|w: int, w2: int, k2: int|
        #![trigger walks[w][0], walks[w2][k2]]
        0 <= w < walks.len() && 0 <= w2 < walks.len() && 0 <= k2 < walks[w2].len() && walks[w2][k2] < walks[w][0] ==> w2 < w
    &&& forall|w: int, w2: int, k2: int|
        #![trigger walks[w], walks[w2][k2]]
        0 <= w < walks.len() && 0 <= w2 < walks.len() && 0 <= k2 < walks[w2].len() && hs[walks[w].last() as int].next
            != walks[w][0] && walks[w2][k2] == hs[walks[w].last() as int].next ==> w2 <= w
}

/// The walks among the first `n` that come back to their start.
pub open spec fn closed_walks(hs: Seq<FBGHalfEdge>, walks: Seq<Seq<usize>>, n: int) -> Seq<Seq<usize>>
    decreases n,
{
    if n <= 0 {
        Seq::empty()
    } else {
        let prev = closed_walks(hs, walks, n - 1);
        if hs[walks[n - 1].last() as int].next == walks[n - 1][0] {
            prev.push(walks[n - 1])
        } else {
            prev
        }
    }
}

/// `cs` are the cycles that extracting the cycles of `hs` gives.
pub open spec fn extracted_cycles(hs: Seq<FBGHalfEdge>, cs: Seq<Seq<usize>>) -> bool {
    exists|walks: Seq<Seq<usize>>| #[trigger] next_walks(hs, walks) && cs == closed_walks(hs, walks, walks.len() as int)
}

/// What the walks so far have done, from the half-edges `hs0` to `hs`: the
/// walks are made as `next_walks` says, their half-edges are used in `hs`,
/// and every half-edge that a start or a stop passed over is used.
pub open spec fn walks_traced(hs0: Seq<FBGHalfEdge>, walks: Seq<Seq<usize>>, hs: Seq<FBGHalfEdge>) -> bool {
    &&& forall|w: int| 0 <= w < walks.len() ==> (#[trigger] walks[w]).len() > 0
    &&& forall|w: int, k: int|
        0 <= w < walks.len() && 0 <= k < walks[w].len() ==> #[trigger] walks[w][k] < hs0.len() && !hs0[walks[w][k] as int].used
            && hs[walks[w][k] as int].used
    &&& forall|w1: int, k1: int, w2: int, k2: int|
        0 <= w1 < walks.len() && 0 <= k1 < walks[w1].len() && 0 <= w2 < walks.len() && 0 <= k2 < walks[w2].len() && (w1 != w2
            || k1 != k2) ==> #[trigger] walks[w1][k1] != #[trigger] walks[w2][k2]
    &&& forall|i: int| 0 <= i < hs0.len() && hs[i].used && !hs0[i].used ==> #[trigger] on_next_walk(walks, i)
    &&& forall|w: int, k: int| 0 <= w < walks.len() && 1 <= k < walks[w].len() ==> #[trigger] next_step(hs0, walks[w], k)
    &&& forall|w: int, w2: int, k2: int|
        #![trigger walks[w][0], walks[w2][k2]]
        0 <= w < walks.len() && 0 <= w2 < walks.len() && 0 <= k2 < walks[w2].len() && walks[w2][k2] < walks[w][0] ==> w2 < w
    &&& forall|w: int, w2: int, k2: int|
        #![trigger walks[w], walks[w2][k2]]
        0 <= w < walks.len() && 0 <= w2 < walks.len() && 0 <= k2 < walks[w2].len() && hs0[walks[w].last() as int].next
            != walks[w][0] && walks[w2][k2] == hs0[walks[w].last() as int].next ==> w2 <= w
    &&& forall|w: int, i: int| #![trigger walks[w][0], hs[i]] 0 <= w < walks.len() && 0 <= i < walks[w][0] ==> hs[i].used
    &&& forall|w: int|
        0 <= w < walks.len() && hs0[(#[trigger] walks[w]).last() as int].next != walks[w][0] ==> hs[hs0[walks[w].last() as int].next as int].used
}

proof fn lemma_walks_traced_push(
    hs0: Seq<FBGHalfEdge>,
    walks: Seq<Seq<usize>>,
    hs1: Seq<FBGHalfEdge>,
    start: usize,
    wi: Seq<usize>,
    closed: bool,
)
    requires
        walks_traced(hs0, walks, hs1),
        same_but_used(hs1, hs0),
        nexts_in_range(hs0),
        hs0.len() < usize::MAX,
        forall|i: int| 0 <= i < hs0.len() && hs0[i].used ==> hs1[i].used,
        start < hs0.len(),
        !hs1[start as int].used,
        forall|i: int| 0 <= i < start ==> hs1[i].used,
        walk_ok(hs1, start, wi),
        wi.len() >= 1,
        closed ==> hs1[wi.last() as int].next == start,
        !closed ==> hs1[hs1[wi.last() as int].next as int].used || wi.contains(hs1[wi.last() as int].next),
        !closed ==> hs1[wi.last() as int].next != start,
    ensures
        walks_traced(hs0, walks.push(wi), marked(hs1, wi)),
{
    reveal(walk_ok);
    reveal(marked);
    let hs2 = marked(hs1, wi);
    let nw = walks.push(wi);
    let m = walks.len() as int;
    assert(nw[m] == wi);
    assert(wi[0] == start);
    assert forall|w: int| 0 <= w < m implies nw[w] == walks[w] by {}
    assert forall|i: int| 0 <= i < hs0.len() implies #[trigger] hs1[i].next == hs0[i].next && (hs2[i].used == (hs1[i].used
        || wi.contains(i as usize))) by {
        assert(hs1[i] == with_used(hs0[i], hs1[i].used));
    }
    assert forall|w: int, k: int|
        0 <= w < nw.len() && 0 <= k < nw[w].len() implies #[trigger] nw[w][k] < hs0.len() && !hs0[nw[w][k] as int].used
            && hs2[nw[w][k] as int].used by {
        if w < m {
            assert(nw[w][k] == walks[w][k]);
            assert(hs1[walks[w][k] as int].next == hs0[walks[w][k] as int].next);
        } else {
            assert(wi.contains(wi[k]));
            assert(hs1[wi[k] as int].next == hs0[wi[k] as int].next);
        }
    }
    assert forall|w1: int, k1: int, w2: int, k2: int|
        0 <= w1 < nw.len() && 0 <= k1 < nw[w1].len() && 0 <= w2 < nw.len() && 0 <= k2 < nw[w2].len() && (w1 != w2 || k1 != k2)
            implies #[trigger] nw[w1][k1] != #[trigger] nw[w2][k2] by {
        if w1 < m && w2 < m {
            assert(nw[w1][k1] == walks[w1][k1] && nw[w2][k2] == walks[w2][k2]);
        } else if w1 < m {
            assert(hs1[walks[w1][k1] as int].used);
            assert(!hs1[wi[k2] as int].used);
        } else if w2 < m {
            assert(hs1[walks[w2][k2] as int].used);
            assert(!hs1[wi[k1] as int].used);
        }
    }
    assert forall|i: int| 0 <= i < hs0.len() && hs2[i].used && !hs0[i].used implies #[trigger] on_next_walk(nw, i) by {
        assert(hs1[i].next == hs0[i].next);
        if hs1[i].used {
            assert(on_next_walk(walks, i));
            let (w, k) = choose|w: int, k: int| 0 <= w < walks.len() && 0 <= k < walks[w].len() && #[trigger] walks[w][k] == i;
            assert(nw[w][k] == i);
        } else {
            assert(wi.contains(i as usize));
            let k = choose|k: int| 0 <= k < wi.len() && wi[k] == i as usize;
            assert(nw[m][k] == i);
        }
    }
    assert forall|w: int, k: int| 0 <= w < nw.len() && 1 <= k < nw[w].len() implies #[trigger] next_step(hs0, nw[w], k) by {
        if w < m {
            assert(next_step(hs0, walks[w], k));
        } else {
            assert(hs1[wi[k - 1] as int].next == wi[k]);
            assert(hs1[wi[k - 1] as int].next == hs0[wi[k - 1] as int].next);
        }
    }
    assert forall|w: int, w2: int, k2: int|
        #![trigger nw[w][0], nw[w2][k2]]
        0 <= w < nw.len() && 0 <= w2 < nw.len() && 0 <= k2 < nw[w2].len() && nw[w2][k2] < nw[w][0] implies w2 < w by {
        if w < m && w2 < m {
            assert(walks[w][0] == nw[w][0] && walks[w2][k2] == nw[w2][k2]);
        } else if w < m {
            assert(hs1[wi[k2] as int] == hs1[wi[k2] as int]);
            assert(hs1[wi[k2] as int].used);
        } else if w2 == m {
            assert(hs1[wi[k2] as int].used);
        }
    }
    let last = wi.last();
    assert(last == wi[wi.len() - 1]);
    assert(hs1[last as int].next == hs0[last as int].next);
    assert forall|w: int, w2: int, k2: int|
        #![trigger nw[w], nw[w2][k2]]
        0 <= w < nw.len() && 0 <= w2 < nw.len() && 0 <= k2 < nw[w2].len() && hs0[nw[w].last() as int].next != nw[w][0]
            && nw[w2][k2] == hs0[nw[w].last() as int].next implies w2 <= w by {
        if w < m && w2 == m {
            assert(nw[w] == walks[w]);
            assert(hs1[wi[k2] as int] == hs1[wi[k2] as int]);
            assert(hs1[hs0[walks[w].last() as int].next as int].used);
        } else if w < m && w2 < m {
            assert(nw[w] == walks[w] && nw[w2][k2] == walks[w2][k2]);
        } else if w == m && w2 == m {
        } else if w == m {
        }
    }
    assert forall|w: int, i: int| #![trigger nw[w][0], hs2[i]] 0 <= w < nw.len() && 0 <= i < nw[w][0] implies hs2[i].used by {
        if w < m {
            assert(walks[w][0] == nw[w][0]);
            assert(hs1[i].used);
        } else {
            assert(hs1[i].used);
        }
    }
    assert forall|w: int|
        0 <= w < nw.len() && hs0[(#[trigger] nw[w]).last() as int].next != nw[w][0] implies hs2[hs0[nw[w].last() as int].next as int].used by {
        if w < m {
            assert(nw[w] == walks[w]);
            assert(hs1[hs0[walks[w].last() as int].next as int].used);
        } else {
            assert(nw[w] == wi);
            assert(!closed);
        }
    }
}


proof fn lemma_closed_walks_prefix(hs: Seq<FBGHalfEdge>, w1: Seq<Seq<usize>>, w2: Seq<Seq<usize>>, n: int)
    requires
        0 <= n <= w1.len(),
        n <= w2.len(),
        forall|w: int| 0 <= w < n ==> #[trigger] w1[w] == w2[w],
    ensures
        closed_walks(hs, w1, n) == closed_walks(hs, w2, n),
    decreases n,
{
    if n > 0 {
        lemma_closed_walks_prefix(hs, w1, w2, n - 1);
        assert(w1[n - 1] == w2[n - 1]);
    }
}


proof fn lemma_next_first_agrees(hs: Seq<FBGHalfEdge>, a: Seq<Seq<usize>>, b: Seq<Seq<usize>>, w: int)
    requires
        next_walks(hs, a),
        next_walks(hs, b),
        0 <= w < a.len(),
        w < b.len(),
        forall|v: int| 0 <= v < w ==> #[trigger] a[v] == b[v],
    ensures
        a[w][0] == b[w][0],
{
    let x = a[w][0];
    let y = b[w][0];
    assert(a[w].len() > 0 && b[w].len() > 0);
    if x < y {
        assert(!hs[x as int].used);
        assert(on_next_walk(b, x as int));
        let (w2, k2) = choose|w2: int, k2: int| 0 <= w2 < b.len() && 0 <= k2 < b[w2].len() && #[trigger] b[w2][k2] == x as int;
        assert(b[w2][k2] < b[w][0]);
        assert(a[w2] == b[w2]);
        assert(a[w2][k2] == a[w][0]);
    } else if y < x {
        assert(!hs[y as int].used);
        assert(on_next_walk(a, y as int));
        let (w2, k2) = choose|w2: int, k2: int| 0 <= w2 < a.len() && 0 <= k2 < a[w2].len() && #[trigger] a[w2][k2] == y as int;
        assert(a[w2][k2] < a[w][0]);
        assert(a[w2] == b[w2]);
        assert(b[w2][k2] == b[w][0]);
    }
}

proof fn lemma_next_walk_agrees(hs: Seq<FBGHalfEdge>, a: Seq<Seq<usize>>, b: Seq<Seq<usize>>, w: int, k: int)
    requires
        next_walks(hs, a),
        next_walks(hs, b),
        0 <= w < a.len(),
        w < b.len(),
        forall|v: int| 0 <= v < w ==> #[trigger] a[v] == b[v],
        0 <= k <= a[w].len(),
        k <= b[w].len(),
    ensures
        forall|j: int| 0 <= j < k ==> #[trigger] a[w][j] == b[w][j],
    decreases k,
{
    if k > 0 {
        lemma_next_walk_agrees(hs, a, b, w, k - 1);
        if k - 1 == 0 {
            lemma_next_first_agrees(hs, a, b, w);
        } else {
            assert(next_step(hs, a[w], k - 1) && next_step(hs, b[w], k - 1));
            assert(a[w][k - 2] == b[w][k - 2]);
        }
    }
}

proof fn lemma_next_stop_agrees(hs: Seq<FBGHalfEdge>, a: Seq<Seq<usize>>, b: Seq<Seq<usize>>, w: int)
    requires
        next_walks(hs, a),
        next_walks(hs, b),
        0 <= w < a.len(),
        w < b.len(),
        forall|v: int| 0 <= v < w ==> #[trigger] a[v] == b[v],
        forall|j: int| 0 <= j < a[w].len() && j < b[w].len() ==> #[trigger] a[w][j] == b[w][j],
    ensures
        a[w].len() >= b[w].len(),
{
    let l = a[w].len() as int;
    if l < b[w].len() {
        assert(a[w].len() > 0);
        assert(next_step(hs, b[w], l));
        assert(a[w][l - 1] == b[w][l - 1] && a[w][0] == b[w][0]);
        assert(a[w].last() == a[w][l - 1]);
        let y = b[w][l];
        if y == a[w][0] {
            assert(b[w][0] == b[w][l]);
        } else {
            assert(!hs[y as int].used);
            assert(on_next_walk(a, y as int));
            let (w2, k2) = choose|w2: int, k2: int| 0 <= w2 < a.len() && 0 <= k2 < a[w2].len() && #[trigger] a[w2][k2] == y as int;
            assert(w2 <= w);
            if w2 < w {
                assert(a[w2] == b[w2]);
                assert(b[w2][k2] == b[w][l]);
            } else {
                assert(a[w][k2] == b[w][k2]);
                assert(b[w][k2] == b[w][l]);
            }
        }
    }
}

proof fn lemma_next_walks_agree(hs: Seq<FBGHalfEdge>, a: Seq<Seq<usize>>, b: Seq<Seq<usize>>, w: int)
    requires
        next_walks(hs, a),
        next_walks(hs, b),
        0 <= w <= a.len(),
        w <= b.len(),
    ensures
        forall|v: int| 0 <= v < w ==> #[trigger] a[v] == b[v],
    decreases w,
{
    if w > 0 {
        let v = w - 1;
        lemma_next_walks_agree(hs, a, b, v);
        let l1 = a[v].len() as int;
        let l2 = b[v].len() as int;
        let m = if l1 < l2 { l1 } else { l2 };
        lemma_next_walk_agrees(hs, a, b, v, m);
        lemma_next_stop_agrees(hs, a, b, v);
        assert forall|u: int| 0 <= u < v implies #[trigger] b[u] == a[u] by {
            assert(a[u] == b[u]);
        }
        lemma_next_stop_agrees(hs, b, a, v);
        assert(a[v] =~= b[v]);
        assert forall|u: int| 0 <= u < w implies #[trigger] a[u] == b[u] by {
            if u < v {
                assert(a[u] == b[u]);
            }
        }
    }
}

/// Extracting the cycles leaves no choice: two lists of cycles that both
/// come from walking the next pointers of the same half-edges are equal.
pub proof fn extracted_cycles_are_unique(hs: Seq<FBGHalfEdge>, cs1: Seq<Seq<usize>>, cs2: Seq<Seq<usize>>)
    requires
        extracted_cycles(hs, cs1),
        extracted_cycles(hs, cs2),
    ensures
        cs1 == cs2,
{
    let a = choose|walks: Seq<Seq<usize>>| #[trigger] next_walks(hs, walks) && cs1 == closed_walks(hs, walks, walks.len() as int);
    let b = choose|walks: Seq<Seq<usize>>| #[trigger] next_walks(hs, walks) && cs2 == closed_walks(hs, walks, walks.len() as int);
    let n = if a.len() < b.len() { a.len() as int } else { b.len() as int };
    lemma_next_walks_agree(hs, a, b, n);
    if a.len() < b.len() {
        assert(b[n].len() > 0);
        let y = b[n][0];
        assert(!hs[y as int].used);
        assert(on_next_walk(a, y as int));
        let (w2, k2) = choose|w2: int, k2: int| 0 <= w2 < a.len() && 0 <= k2 < a[w2].len() && #[trigger] a[w2][k2] == y as int;
        assert(a[w2] == b[w2]);
        assert(b[w2][k2] == b[n][0]);
    } else if b.len() < a.len() {
        assert(a[n].len() > 0);
        let y = a[n][0];
        assert(!hs[y as int].used);
        assert(on_next_walk(b, y as int));
        let (w2, k2) = choose|w2: int, k2: int| 0 <= w2 < b.len() && 0 <= k2 < b[w2].len() && #[trigger] b[w2][k2] == y as int;
        assert(a[w2] == b[w2]);
        assert(a[w2][k2] == a[n][0]);
    }
    lemma_closed_walks_prefix(hs, a, b, n);
}

impl FaceBoundaryGraph {
    /// Extracts the face cycles by following next pointers from each unused
    /// half-edge in index order, marking the half-edges it passes used; a walk
    /// that does not come back to its start yields no cycle (see
    /// `extracted_cycles`, which admits one result only). Afterwards every
    /// half-edge is used. Each cycle is listed from its smallest half-edge, in
    /// increasing order of that half-edge; the cycles are disjoint and consist
    /// of half-edges that were unused. When the next pointers form a
    /// permutation and nothing was used before, every half-edge lies on a
    /// cycle.
    #[verifier::rlimit(80)]
    #[verifier::spinoff_prover]
    pub fn extract_cycles(&mut self) -> (r: Vec<Vec<usize>>)
        requires
            nexts_in_range(old(self).half_edges@),
            old(self).half_edges@.len() < usize::MAX,
        ensures
            final(self).vertices@ == old(self).vertices@,
            same_but_used(final(self).half_edges@, old(self).half_edges@),
            forall|i: int| 0 <= i < old(self).half_edges@.len() ==> (#[trigger] final(self).half_edges@[i]).used,
            forall|c: int| 0 <= c < r@.len() ==> is_next_cycle(old(self).half_edges@, (#[trigger] r@[c])@),
            forall|c: int, k: int|
                0 <= c < r@.len() && 0 <= k < r@[c]@.len() ==> !old(self).half_edges@[#[trigger] r@[c]@[k] as int].used,
            forall|c: int, k: int| 0 <= c < r@.len() && 0 < k < r@[c]@.len() ==> r@[c]@[0] < #[trigger] r@[c]@[k],
            forall|c: int, d: int| 0 <= c < d < r@.len() ==> #[trigger] r@[c]@[0] < #[trigger] r@[d]@[0],
            forall|c: int, d: int, k: int, l: int|
                0 <= c < d < r@.len() && 0 <= k < r@[c]@.len() && 0 <= l < r@[d]@.len() ==> #[trigger] r@[c]@[k]
                    != #[trigger] r@[d]@[l],
            next_injective(old(self).half_edges@) && (forall|i: int|
                0 <= i < old(self).half_edges@.len() ==> !(#[trigger] old(self).half_edges@[i]).used) ==> forall|i: usize|
                i < old(self).half_edges@.len() ==> in_cycles(cycles_view(r@), i),
            extracted_cycles(old(self).half_edges@, cycles_view(r@)),
    {
        let ghost hs0 = self.half_edges@;
        let ghost fresh = next_injective(hs0) && (forall|i: int| 0 <= i < hs0.len() ==> !(#[trigger] hs0[i]).used);
        proof {
            if fresh {
                reveal(used_pred_closed);
            }
        }
        let n = self.half_edges.len();
        let mut cycles: Vec<Vec<usize>> = Vec::new();
        let ghost mut walks: Seq<Seq<usize>> = Seq::empty();
        proof {
            assert(cycles_view(cycles@) =~= closed_walks(hs0, walks, 0));
        }
        let mut start: usize = 0;
        while start < n
            invariant
                walks_traced(hs0, walks, self.half_edges@),
                cycles_view(cycles@) == closed_walks(hs0, walks, walks.len() as int),
                n == hs0.len(),
                n < usize::MAX,
                hs0 == old(self).half_edges@,
                self.vertices@ == old(self).vertices@,
                nexts_in_range(hs0),
                start <= n,
                same_but_used(self.half_edges@, hs0),
                forall|i: int| 0 <= i < start ==> (#[trigger] self.half_edges@[i]).used,
                forall|i: int| 0 <= i < n && (#[trigger] hs0[i]).used ==> self.half_edges@[i].used,
                forall|c: int| 0 <= c < cycles@.len() ==> is_next_cycle(hs0, (#[trigger] cycles@[c])@),
                forall|c: int, k: int|
                    0 <= c < cycles@.len() && 0 <= k < cycles@[c]@.len() ==> !hs0[#[trigger] cycles@[c]@[k] as int].used
                        && self.half_edges@[cycles@[c]@[k] as int].used,
                forall|c: int, k: int| 0 <= c < cycles@.len() && 0 < k < cycles@[c]@.len() ==> cycles@[c]@[0] < #[trigger] cycles@[c]@[k],
                forall|c: int| 0 <= c < cycles@.len() ==> (#[trigger] cycles@[c])@[0] < start,
                forall|c: int, d: int| 0 <= c < d < cycles@.len() ==> #[trigger] cycles@[c]@[0] < #[trigger] cycles@[d]@[0],
                forall|c: int, d: int, k: int, l: int|
                    0 <= c < d < cycles@.len() && 0 <= k < cycles@[c]@.len() && 0 <= l < cycles@[d]@.len()
                        ==> #[trigger] cycles@[c]@[k] != #[trigger] cycles@[d]@[l],
                fresh == (next_injective(hs0) && (forall|i: int| 0 <= i < hs0.len() ==> !(#[trigger] hs0[i]).used)),
                fresh ==> used_pred_closed(self.half_edges@),
                fresh ==> forall|x: usize| x < n ==> (self.half_edges@[x as int].used <==> in_cycles(cycles_view(cycles@), x)),
            decreases n - start,
        {
            if !self.half_edges[start].used {
                let ghost hs1 = self.half_edges@;
                proof {
                    assert forall|i: int| 0 <= i < hs1.len() implies (#[trigger] hs1[i]).next < hs1.len() by {
                        assert(hs1[i] == with_used(hs0[i], hs1[i].used));
                    }
                    lemma_injective_same_nexts(hs1, hs0);
                }
                let (walk, closed) = self.trace_from(start);
                let ghost walks0 = walks;
                proof {
                    lemma_walks_traced_push(hs0, walks, hs1, start, walk@, closed);
                    walks = walks.push(walk@);
                    lemma_closed_walks_prefix(hs0, walks0, walks, walks0.len() as int);
                    lemma_marked_same_but_used(hs1, hs0, walk@);
                    lemma_walk_facts(hs1, start, walk@);
                    assert(hs1[walk@.last() as int] == with_used(hs0[walk@.last() as int], hs1[walk@.last() as int].used));
                    reveal(walk_ok);
                    assert(walk@[0] == start);
                    if fresh {
                        lemma_pred_closed_extend(hs1, start, walk@);
                    }
                }
                let ghost hs2 = self.half_edges@;
                let ghost w = walk@;
                proof {
                    assert forall|k: int| 0 <= k < w.len() implies start <= #[trigger] w[k] by {
                        if w[k] < start {
                            assert(hs1[w[k] as int].used);
                        }
                    }
                    assert forall|k: int| 0 <= k < w.len() implies !hs0[#[trigger] w[k] as int].used by {
                        assert(!hs1[w[k] as int].used);
                    }
                    assert forall|c: int, k: int|
                        0 <= c < cycles@.len() && 0 <= k < cycles@[c]@.len() implies hs2[#[trigger] cycles@[c]@[k] as int].used by {
                        assert(hs1[cycles@[c]@[k] as int].used);
                    }
                    assert(hs2[start as int].used) by {
                        assert(w[0] == start);
                        assert(w.contains(start));
                    }
                    if fresh {
                        assert(closed);
                    }
                }
                if closed {
                    let ghost old_cycles = cycles@;
                    cycles.push(walk);
                    proof {
                        assert(cycles_view(cycles@) =~= cycles_view(old_cycles).push(w));
                        assert(cycles@[cycles@.len() - 1]@ == w);
                        assert forall|c: int| 0 <= c < cycles@.len() implies is_next_cycle(hs0, (#[trigger] cycles@[c])@) by {
                            if c < old_cycles.len() {
                                assert(cycles@[c] == old_cycles[c]);
                            } else {
                                assert forall|k: int| 0 <= k < w.len() - 1 implies hs0[#[trigger] w[k] as int].next == w[k + 1] by {
                                    assert(hs1[w[k] as int] == with_used(hs0[w[k] as int], hs1[w[k] as int].used));
                                }
                                assert(hs1[w.last() as int] == with_used(hs0[w.last() as int], hs1[w.last() as int].used));
                            }
                        }
                        assert forall|c: int, k: int|
                            0 <= c < cycles@.len() && 0 <= k < cycles@[c]@.len() implies !hs0[#[trigger] cycles@[c]@[k] as int].used
                                && hs2[cycles@[c]@[k] as int].used by {
                            if c < old_cycles.len() {
                                assert(cycles@[c] == old_cycles[c]);
                            } else {
                                assert(w.contains(w[k]));
                            }
                        }
                        assert forall|c: int, k: int| 0 <= c < cycles@.len() && 0 < k < cycles@[c]@.len() implies cycles@[c]@[0]
                            < #[trigger] cycles@[c]@[k] by {
                            if c < old_cycles.len() {
                                assert(cycles@[c] == old_cycles[c]);
                            } else {
                                assert(w[k] != w[0]);
                            }
                        }
                        assert forall|c: int| 0 <= c < cycles@.len() implies (#[trigger] cycles@[c])@[0] < start + 1 by {
                            if c < old_cycles.len() {
                                assert(cycles@[c] == old_cycles[c]);
                            }
                        }
                        assert forall|c: int, d: int| 0 <= c < d < cycles@.len() implies #[trigger] cycles@[c]@[0] < #[trigger] cycles@[d]@[0] by {
                            assert(cycles@[c] == old_cycles[c]);
                            if d < old_cycles.len() {
                                assert(cycles@[d] == old_cycles[d]);
                            }
                        }
                        assert forall|c: int, d: int, k: int, l: int|
                            0 <= c < d < cycles@.len() && 0 <= k < cycles@[c]@.len() && 0 <= l < cycles@[d]@.len()
                                implies #[trigger] cycles@[c]@[k] != #[trigger] cycles@[d]@[l] by {
                            assert(cycles@[c] == old_cycles[c]);
                            if d < old_cycles.len() {
                                assert(cycles@[d] == old_cycles[d]);
                            } else {
                                assert(hs1[old_cycles[c]@[k] as int].used);
                                assert(!hs1[w[l] as int].used);
                            }
                        }
                        if fresh {
                            assert(cycles_view(cycles@) =~= cycles_view(old_cycles).push(w));
                            assert forall|x: usize| x < n implies (hs2[x as int].used <==> in_cycles(cycles_view(cycles@), x)) by {
                                let cv = cycles_view(cycles@);
                                let ov = cycles_view(old_cycles);
                                if in_cycles(ov, x) {
                                    let (c, k) = choose|c: int, k: int| 0 <= c < ov.len() && 0 <= k < ov[c].len() && #[trigger] ov[c][k] == x;
                                    assert(cv[c][k] == x);
                                }
                                if w.contains(x) {
                                    let k = choose|k: int| 0 <= k < w.len() && w[k] == x;
                                    assert(cv[ov.len() as int][k] == x);
                                }
                                if in_cycles(cv, x) {
                                    let (c, k) = choose|c: int, k: int| 0 <= c < cv.len() && 0 <= k < cv[c].len() && #[trigger] cv[c][k] == x;
                                    if c < ov.len() {
                                        assert(ov[c][k] == x);
                                    } else {
                                        assert(w[k] == x);
                                        assert(w.contains(x));
                                    }
                                }
                            }
                        }
                    }
                }
            }
            start = start + 1;
        }
        proof {
            if fresh {
                assert forall|i: usize| i < n implies in_cycles(cycles_view(cycles@), i) by {
                    assert(self.half_edges@[i as int].used);
                }
            }
            assert(next_walks(hs0, walks)) by {
                assert forall|i: int| 0 <= i < hs0.len() && !hs0[i].used implies #[trigger] on_next_walk(walks, i) by {
                    assert(self.half_edges@[i].used);
                }
            }
        }
        cycles
    }
}

/// How many of the first `n` half-edges of `cycle` carry status `st`.
pub open spec fn status_count(hs: Seq<FBGHalfEdge>, cycle: Seq<usize>, st: ShapesOpStatus, n: int) -> nat
    decreases n,
{
    if n <= 0 {
        0
    } else {
        status_count(hs, cycle, st, n - 1) + if hs[cycle[n - 1] as int].status == st {
            1nat
        } else {
            0nat
        }
    }
}

/// The status of a cycle by majority vote of its half-edges' decided statuses:
/// `Unknown` when none is decided, `And` on a tie.
pub open spec fn cycle_status_spec(hs: Seq<FBGHalfEdge>, cycle: Seq<usize>) -> ShapesOpStatus {
    let a = status_count(hs, cycle, ShapesOpStatus::And, cycle.len() as int);
    let o = status_count(hs, cycle, ShapesOpStatus::Or, cycle.len() as int);
    if a == 0 && o == 0 {
        ShapesOpStatus::Unknown
    } else if a >= o {
        ShapesOpStatus::And
    } else {
        ShapesOpStatus::Or
    }
}

/// A cycle's status is the majority of its half-edges' decided statuses:
/// more Or than And gives Or, more And than Or gives And, a tie between some
/// decided statuses gives And, and no decided status gives Unknown.
pub proof fn cycle_status_is_majority(hs: Seq<FBGHalfEdge>, cycle: Seq<usize>)
    ensures
        ({
            let a = status_count(hs, cycle, ShapesOpStatus::And, cycle.len() as int);
            let o = status_count(hs, cycle, ShapesOpStatus::Or, cycle.len() as int);
            &&& o > a ==> cycle_status_spec(hs, cycle) == ShapesOpStatus::Or
            &&& a > o ==> cycle_status_spec(hs, cycle) == ShapesOpStatus::And
            &&& (a == o && a > 0) ==> cycle_status_spec(hs, cycle) == ShapesOpStatus::And
            &&& (a == 0 && o == 0) ==> cycle_status_spec(hs, cycle) == ShapesOpStatus::Unknown
        }),
{
}

proof fn lemma_status_count_all(hs: Seq<FBGHalfEdge>, cycle: Seq<usize>, s: ShapesOpStatus, t: ShapesOpStatus, n: int)
    requires
        0 <= n <= cycle.len(),
        forall|k: int| 0 <= k < cycle.len() ==> hs[#[trigger] cycle[k] as int].status == s,
    ensures
        status_count(hs, cycle, t, n) == if s == t { n as nat } else { 0nat },
    decreases n,
{
    if n > 0 {
        lemma_status_count_all(hs, cycle, s, t, n - 1);
        assert(hs[cycle[n - 1] as int].status == s);
    }
}

proof fn lemma_fragment_all_unknown(outer: ShapesOpStatus, holes: Seq<ShapesOpStatus>)
    requires
        forall|k: int| 0 <= k < holes.len() ==> #[trigger] holes[k] == ShapesOpStatus::Unknown,
    ensures
        fragment_status_spec(outer, holes) == outer,
    decreases holes.len(),
{
    if holes.len() > 0 {
        assert(holes.last() == ShapesOpStatus::Unknown);
        lemma_fragment_all_unknown(outer, holes.drop_last());
    }
}

/// A fragment's status is its outer cycle's unless a hole has a decided
/// status, and then the last decided hole's: a hole added with a decided
/// status sets the fragment's status, an undecided one changes nothing, and
/// with no decided hole the outer cycle's status stands.
pub proof fn fragment_status_law(outer: ShapesOpStatus, holes: Seq<ShapesOpStatus>, s: ShapesOpStatus)
    ensures
        s != ShapesOpStatus::Unknown ==> fragment_status_spec(outer, holes.push(s)) == s,
        fragment_status_spec(outer, holes.push(ShapesOpStatus::Unknown)) == fragment_status_spec(outer, holes),
        (forall|k: int| 0 <= k < holes.len() ==> #[trigger] holes[k] == ShapesOpStatus::Unknown) ==> fragment_status_spec(
            outer,
            holes,
        ) == outer,
{
    assert(holes.push(s).drop_last() =~= holes);
    assert(holes.push(ShapesOpStatus::Unknown).drop_last() =~= holes);
    if forall|k: int| 0 <= k < holes.len() ==> #[trigger] holes[k] == ShapesOpStatus::Unknown {
        lemma_fragment_all_unknown(outer, holes);
    }
}

/// A cycle whose half-edges all carry one status has that status.
pub proof fn unanimous_cycle_keeps_its_status(hs: Seq<FBGHalfEdge>, cycle: Seq<usize>, s: ShapesOpStatus)
    requires
        cycle.len() > 0,
        forall|k: int| 0 <= k < cycle.len() ==> hs[#[trigger] cycle[k] as int].status == s,
    ensures
        cycle_status_spec(hs, cycle) == s,
{
    lemma_status_count_all(hs, cycle, s, ShapesOpStatus::And, cycle.len() as int);
    lemma_status_count_all(hs, cycle, s, ShapesOpStatus::Or, cycle.len() as int);
}

/// The status of a fragment: that of its outer cycle, overridden by each hole
/// with a decided status in turn (the last one wins).
pub open spec fn fragment_status_spec(outer: ShapesOpStatus, holes: Seq<ShapesOpStatus>) -> ShapesOpStatus
    decreases holes.len(),
{
    if holes.len() == 0 {
        outer
    } else if holes.last() != ShapesOpStatus::Unknown {
        holes.last()
    } else {
        fragment_status_spec(outer, holes.drop_last())
    }
}

impl FaceBoundaryGraph {
    /// The status of a face cycle by majority vote (see `cycle_status_spec`).
    pub fn cycle_status(&self, cycle: &Vec<usize>) -> (r: ShapesOpStatus)
        requires
            forall|k: int| 0 <= k < cycle@.len() ==> #[trigger] cycle@[k] < self.half_edges@.len(),
        ensures
            r == cycle_status_spec(self.half_edges@, cycle@),
    {
        let mut and_count: usize = 0;
        let mut or_count: usize = 0;
        let mut k: usize = 0;
        while k < cycle.len()
            invariant
                k <= cycle@.len(),
                forall|j: int| 0 <= j < cycle@.len() ==> #[trigger] cycle@[j] < self.half_edges@.len(),
                and_count == status_count(self.half_edges@, cycle@, ShapesOpStatus::And, k as int),
                or_count == status_count(self.half_edges@, cycle@, ShapesOpStatus::Or, k as int),
                and_count + or_count <= k,
            decreases cycle@.len() - k,
        {
            let h = cycle[k];
            match self.half_edges[h].status {
                ShapesOpStatus::And => and_count = and_count + 1,
                ShapesOpStatus::Or => or_count = or_count + 1,
                ShapesOpStatus::Unknown => {},
            }
            k = k + 1;
        }
        if and_count == 0 && or_count == 0 {
            ShapesOpStatus::Unknown
        } else if and_count >= or_count {
            ShapesOpStatus::And
        } else {
            ShapesOpStatus::Or
        }
    }
}

/// Two cycles meet: some half-edge of the one leaves the same vertex as some
/// half-edge of the other.
pub open spec fn cycles_meet(hs: Seq<FBGHalfEdge>, a: Seq<usize>, b: Seq<usize>) -> bool {
    exists|i: int, j: int| 0 <= i < a.len() && 0 <= j < b.len() && #[trigger] hs[a[i] as int].origin == #[trigger] hs[b[j] as int].origin
}

impl FaceBoundaryGraph {
    /// Whether two cycles share a vertex (see `cycles_meet`); a hole is only
    /// given to an outer cycle it does not meet.
    pub fn cycles_share_a_vertex(&self, a: &Vec<usize>, b: &Vec<usize>) -> (r: bool)
        requires
            forall|k: int| 0 <= k < a@.len() ==> #[trigger] a@[k] < self.half_edges@.len(),
            forall|k: int| 0 <= k < b@.len() ==> #[trigger] b@[k] < self.half_edges@.len(),
        ensures
            r == cycles_meet(self.half_edges@, a@, b@),
    {
        let ghost hs = self.half_edges@;
        let mut i: usize = 0;
        while i < a.len()
            invariant
                hs == self.half_edges@,
                i <= a@.len(),
                forall|k: int| 0 <= k < a@.len() ==> #[trigger] a@[k] < hs.len(),
                forall|k: int| 0 <= k < b@.len() ==> #[trigger] b@[k] < hs.len(),
                forall|x: int, y: int| 0 <= x < i && 0 <= y < b@.len() ==> #[trigger] hs[a@[x] as int].origin != #[trigger] hs[b@[y] as int].origin,
            decreases a@.len() - i,
        {
            let oa = self.half_edges[a[i]].origin;
            let mut j: usize = 0;
            while j < b.len()
                invariant
                    hs == self.half_edges@,
                    i < a@.len(),
                    oa == hs[a@[i as int] as int].origin,
                    forall|k: int| 0 <= k < b@.len() ==> #[trigger] b@[k] < hs.len(),
                    j <= b@.len(),
                    forall|y: int| 0 <= y < j ==> oa != #[trigger] hs[b@[y] as int].origin,
                decreases b@.len() - j,
            {
                if self.half_edges[b[j]].origin == oa {
                    assert(hs[a@[i as int] as int].origin == hs[b@[j as int] as int].origin);
                    return true;
                }
                j = j + 1;
            }
            i = i + 1;
        }
        false
    }
}

/// The status of a fragment from its outer cycle's status and its holes'
/// statuses (see `fragment_status_spec`).
pub fn fragment_status(outer: ShapesOpStatus, holes: &[ShapesOpStatus]) -> (r: ShapesOpStatus)
    ensures
        r == fragment_status_spec(outer, holes@),
{
    let mut st = outer;
    let mut k: usize = 0;
    while k < holes.len()
        invariant
            k <= holes@.len(),
            st == fragment_status_spec(outer, holes@.take(k as int)),
        decreases holes@.len() - k,
    {
        proof {
            assert(holes@.take(k + 1).drop_last() =~= holes@.take(k as int));
        }
        if holes[k] != ShapesOpStatus::Unknown {
            st = holes[k];
        }
        k = k + 1;
    }
    proof {
        assert(holes@.take(holes@.len() as int) =~= holes@);
    }
    st
}

/// The part a face cycle plays, decided by the sign of its parametric area:
/// an outer boundary, a hole, or neither (negligible area).
#[derive(Clone, Copy, PartialEq, Eq, Structural, Debug)]
pub enum CycleRole {
    /// Positive area: the outer boundary of a fragment.
    Outer,
    /// Negative area: a hole of some fragment.
    Hole,
    /// Negligible area: left out.
    Skipped,
}

/// The cycles as sequences.
pub open spec fn cycles_seq(cycles: Seq<Vec<usize>>) -> Seq<Seq<usize>> {
    cycles.map_values(|c: Vec<usize>| c@)
}

/// Outer cycle `o` can take hole `h`: it meets no vertex of the hole and
/// contains the hole's first point (`contains[o][h]`).
pub open spec fn can_take(
    hs: Seq<FBGHalfEdge>,
    cycles: Seq<Seq<usize>>,
    roles: Seq<CycleRole>,
    contains: Seq<Seq<bool>>,
    o: int,
    h: int,
) -> bool {
    &&& roles[o] == CycleRole::Outer
    &&& !cycles_meet(hs, cycles[h], cycles[o])
    &&& contains[o][h]
}

/// The first cycle from `o` on that can take hole `h`.
pub open spec fn owner_from(
    hs: Seq<FBGHalfEdge>,
    cycles: Seq<Seq<usize>>,
    roles: Seq<CycleRole>,
    contains: Seq<Seq<bool>>,
    h: int,
    o: int,
) -> Option<int>
    decreases cycles.len() - o,
{
    if o < 0 || o >= cycles.len() {
        None
    } else if can_take(hs, cycles, roles, contains, o, h) {
        Some(o)
    } else {
        owner_from(hs, cycles, roles, contains, h, o + 1)
    }
}

/// The outer cycle that hole `h` goes to: the first that can take it.
pub open spec fn hole_owner(
    hs: Seq<FBGHalfEdge>,
    cycles: Seq<Seq<usize>>,
    roles: Seq<CycleRole>,
    contains: Seq<Seq<bool>>,
    h: int,
) -> Option<int> {
    owner_from(hs, cycles, roles, contains, h, 0)
}

/// The per-cycle containment answers are square over the cycles.
pub open spec fn containment_fits(n: int, contains: Seq<Vec<bool>>) -> bool {
    &&& contains.len() == n
    &&& forall|o: int| 0 <= o < n ==> (#[trigger] contains[o])@.len() == n
}

/// The answers as sequences.
pub open spec fn answers_seq(contains: Seq<Vec<bool>>) -> Seq<Seq<bool>> {
    contains.map_values(|c: Vec<bool>| c@)
}

impl FaceBoundaryGraph {
    /// The outer cycle that hole `h` goes to (see `hole_owner`).
    fn find_owner(
        &self,
        cycles: &Vec<Vec<usize>>,
        roles: &Vec<CycleRole>,
        contains: &Vec<Vec<bool>>,
        h: usize,
    ) -> (r: Option<usize>)
        requires
            h < cycles@.len(),
            roles@.len() == cycles@.len(),
            containment_fits(cycles@.len() as int, contains@),
            forall|c: int, k: int| 0 <= c < cycles@.len() && 0 <= k < cycles@[c]@.len() ==> #[trigger] cycles@[c]@[k] < self.half_edges@.len(),
        ensures
            r matches Some(o) ==> hole_owner(self.half_edges@, cycles_seq(cycles@), roles@, answers_seq(contains@), h as int) == Some(o as int),
            r is None ==> hole_owner(self.half_edges@, cycles_seq(cycles@), roles@, answers_seq(contains@), h as int) is None,
    {
        let ghost hs = self.half_edges@;
        let ghost cs = cycles_seq(cycles@);
        let ghost an = answers_seq(contains@);
        let n = cycles.len();
        let mut o: usize = n;
        // Scan from the back so that the result for `o` is known from `o + 1`.
        let mut best: Option<usize> = None;
        while o > 0
            invariant
                o <= n,
                n == cycles@.len(),
                h < n,
                hs == self.half_edges@,
                cs == cycles_seq(cycles@),
                an == answers_seq(contains@),
                roles@.len() == n,
                containment_fits(n as int, contains@),
                forall|c: int, k: int| 0 <= c < n && 0 <= k < cycles@[c]@.len() ==> #[trigger] cycles@[c]@[k] < hs.len(),
                best matches Some(b) ==> owner_from(hs, cs, roles@, an, h as int, o as int) == Some(b as int),
                best is None ==> owner_from(hs, cs, roles@, an, h as int, o as int) is None,
            decreases o,
        {
            o = o - 1;
            assert(cs[o as int] == cycles@[o as int]@);
            assert(cs[h as int] == cycles@[h as int]@);
            assert(an[o as int] == contains@[o as int]@);
            if roles[o] == CycleRole::Outer && contains[o][h] && !self.cycles_share_a_vertex(&cycles[h], &cycles[o]) {
                best = Some(o);
            }
        }
        best
    }

    /// Groups the holes of a face under their outer cycles: entry `o` lists,
    /// in increasing order, the holes whose owner (see `hole_owner`) is cycle
    /// `o` — the first outer cycle that meets no vertex of the hole and
    /// contains its first point. The roles and the containment answers come
    /// from parametric areas and point-in-polygon tests.
    pub fn assign_holes(
        &self,
        cycles: &Vec<Vec<usize>>,
        roles: &Vec<CycleRole>,
        contains: &Vec<Vec<bool>>,
    ) -> (r: Vec<Vec<usize>>)
        requires
            roles@.len() == cycles@.len(),
            containment_fits(cycles@.len() as int, contains@),
            forall|c: int, k: int| 0 <= c < cycles@.len() && 0 <= k < cycles@[c]@.len() ==> #[trigger] cycles@[c]@[k] < self.half_edges@.len(),
        ensures
            r@.len() == cycles@.len(),
            forall|o: int, a: int, b: int| 0 <= o < r@.len() && 0 <= a < b < r@[o]@.len() ==> #[trigger] r@[o]@[a] < #[trigger] r@[o]@[b],
            forall|o: int, h: int|
                0 <= o < r@.len() ==> ((#[trigger] r@[o]@.contains(h as usize) && 0 <= h < cycles@.len()) <==> (0 <= h < cycles@.len() && roles@[h] == CycleRole::Hole
                    && hole_owner(self.half_edges@, cycles_seq(cycles@), roles@, answers_seq(contains@), h) == Some(o))),
            forall|o: int, k: int| 0 <= o < r@.len() && 0 <= k < r@[o]@.len() ==> #[trigger] r@[o]@[k] < cycles@.len(),
    {
        let ghost hs = self.half_edges@;
        let ghost cs = cycles_seq(cycles@);
        let ghost an = answers_seq(contains@);
        let n = cycles.len();
        let mut owners: Vec<Option<usize>> = Vec::new();
        let mut h: usize = 0;
        while h < n
            invariant
                h <= n,
                n == cycles@.len(),
                hs == self.half_edges@,
                cs == cycles_seq(cycles@),
                an == answers_seq(contains@),
                roles@.len() == n,
                containment_fits(n as int, contains@),
                forall|c: int, k: int| 0 <= c < n && 0 <= k < cycles@[c]@.len() ==> #[trigger] cycles@[c]@[k] < hs.len(),
                owners@.len() == h,
                forall|j: int| 0 <= j < h ==> (#[trigger] owners@[j] matches Some(o) ==> (roles@[j] == CycleRole::Hole && hole_owner(hs, cs, roles@, an, j) == Some(o as int))),
                forall|j: int| 0 <= j < h ==> ((#[trigger] owners@[j]) is None ==> (roles@[j] != CycleRole::Hole || hole_owner(hs, cs, roles@, an, j) is None)),
            decreases n - h,
        {
            if roles[h] == CycleRole::Hole {
                let o = self.find_owner(cycles, roles, contains, h);
                owners.push(o);
            } else {
                owners.push(None);
            }
            h = h + 1;
        }
        let mut r: Vec<Vec<usize>> = Vec::new();
        let mut o: usize = 0;
        while o < n
            invariant
                o <= n,
                n == cycles@.len(),
                owners@.len() == n,
                r@.len() == o,
                forall|j: int| 0 <= j < n ==> (#[trigger] owners@[j] matches Some(w) ==> (roles@[j] == CycleRole::Hole && hole_owner(hs, cs, roles@, an, j) == Some(w as int))),
                forall|j: int| 0 <= j < n ==> ((#[trigger] owners@[j]) is None ==> (roles@[j] != CycleRole::Hole || hole_owner(hs, cs, roles@, an, j) is None)),
                forall|p: int, a: int, b: int| 0 <= p < o && 0 <= a < b < r@[p]@.len() ==> #[trigger] r@[p]@[a] < #[trigger] r@[p]@[b],
                forall|p: int, k: int| 0 <= p < o && 0 <= k < r@[p]@.len() ==> #[trigger] r@[p]@[k] < n,
                forall|p: int, j: int| 0 <= p < o && 0 <= j < n ==> (#[trigger] r@[p]@.contains(j as usize) <==> owners@[j] == Some(p as usize)),
            decreases n - o,
        {
            let mut list: Vec<usize> = Vec::new();
            let mut j: usize = 0;
            while j < n
                invariant
                    j <= n,
                    o < n,
                    owners@.len() == n,
                    forall|a: int, b: int| 0 <= a < b < list@.len() ==> list@[a] < list@[b],
                    forall|k: int| 0 <= k < list@.len() ==> list@[k] < j,
                    forall|x: int| 0 <= x < n ==> (list@.contains(x as usize) <==> x < j && owners@[x] == Some(o)),
                decreases n - j,
            {
                let ghost before = list@;
                if owners[j] == Some(o) {
                    list.push(j);
                }
                proof {
                    assert forall|x: int| 0 <= x < n implies (list@.contains(x as usize) <==> x < j + 1 && owners@[x] == Some(o)) by {
                        if owners@[j as int] == Some(o) {
                            crate::topology::lemma_push_contains_usize(before, j, x as usize);
                        }
                    }
                }
                j = j + 1;
            }
            r.push(list);
            o = o + 1;
        }
        proof {
            assert forall|p: int, x: int| 0 <= p < r@.len() implies ((#[trigger] r@[p]@.contains(x as usize) && 0 <= x < n) <==> (0 <= x < n && roles@[x] == CycleRole::Hole
                && hole_owner(hs, cs, roles@, an, x) == Some(p))) by {
                if 0 <= x < n {
                    if owners@[x] is None {
                    }
                }
            }
        }
        r
    }
}

/// Each vertex's outgoing list holds exactly the half-edges leaving it, each
/// once.
#[verifier::opaque]
pub open spec fn outgoing_partition(vertices: Seq<FBGVertex>, hs: Seq<FBGHalfEdge>) -> bool {
    &&& forall|v: int| 0 <= v < vertices.len() ==> (#[trigger] vertices[v]).outgoing@.no_duplicates()
    &&& forall|v: int, k: int|
        0 <= v < vertices.len() && 0 <= k < vertices[v].outgoing@.len() ==> hs[#[trigger] vertices[v].outgoing@[k] as int].origin
            == v
    &&& forall|i: int| 0 <= i < hs.len() ==> vertices[(#[trigger] hs[i]).origin as int].outgoing@.contains(i as usize)
}

/// Twins come in pairs: the twin of a half-edge's twin is the half-edge.
#[verifier::opaque]
pub open spec fn twins_involutive(hs: Seq<FBGHalfEdge>) -> bool {
    forall|i: int| 0 <= i < hs.len() ==> hs[(#[trigger] hs[i]).twin as int].twin == i
}

proof fn lemma_min_pos(out: Seq<usize>, t: usize, n: int)
    requires
        0 <= n <= out.len(),
        exists|p: int| 0 <= p < n && out[p] == t,
    ensures
        exists|p: int| 0 <= p < n && out[p] == t && forall|j: int| 0 <= j < p ==> out[j] != t,
    decreases n,
{
    if exists|p: int| 0 <= p < n - 1 && out[p] == t {
        lemma_min_pos(out, t, n - 1);
        let p = choose|p: int| 0 <= p < n - 1 && out[p] == t && forall|j: int| 0 <= j < p ==> out[j] != t;
        assert(0 <= p < n && out[p] == t && forall|j: int| 0 <= j < p ==> out[j] != t);
    } else {
        let p = choose|p: int| 0 <= p < n && out[p] == t;
        assert(p == n - 1);
        assert(forall|j: int| 0 <= j < n - 1 ==> out[j] != t);
        assert(0 <= n - 1 < n && out[n - 1] == t && forall|j: int| 0 <= j < n - 1 ==> out[j] != t);
    }
}

proof fn lemma_first_pos(out: Seq<usize>, t: usize)
    requires
        out.contains(t),
    ensures
        0 <= first_pos(out, t) < out.len(),
        out[first_pos(out, t)] == t,
{
    let p0 = choose|p: int| 0 <= p < out.len() && out[p] == t;
    assert(0 <= p0 < out.len() as int && out[p0] == t);
    lemma_min_pos(out, t, out.len() as int);
}

proof fn lemma_linked_next_at(vertices: Seq<FBGVertex>, hs: Seq<FBGHalfEdge>, i: int)
    requires
        links_in_range(vertices, hs),
        outgoing_partition(vertices, hs),
        twins_involutive(hs),
        0 <= i < hs.len(),
    ensures
        ({
            let t = hs[i].twin;
            let out = vertices[hs[t as int].origin as int].outgoing@;
            &&& t < hs.len()
            &&& hs[t as int].twin == i
            &&& out.no_duplicates()
            &&& out.contains(t)
            &&& linked_next(vertices, hs, i) == cyclic_pred(out, t)
            &&& linked_next(vertices, hs, i) < hs.len()
            &&& hs[linked_next(vertices, hs, i) as int].origin == hs[t as int].origin
        }),
{
    reveal(outgoing_partition);
    reveal(twins_involutive);
    let t = hs[i].twin;
    assert(t < hs.len());
    let o = hs[t as int].origin;
    assert(o < vertices.len());
    let out = vertices[o as int].outgoing@;
    assert(out.contains(t));
    lemma_first_pos(out, t);
    let p = first_pos(out, t);
    let q = if p == 0 { out.len() - 1 } else { p - 1 };
    assert(0 <= q < out.len());
    assert(out[q] < hs.len());
    assert(hs[out[q] as int].origin == o);
}

/// The entry just before `t` in `out`, cyclically.
pub open spec fn cyclic_pred(out: Seq<usize>, t: usize) -> usize {
    let p = first_pos(out, t);
    if p == 0 {
        out[out.len() - 1]
    } else {
        out[p - 1]
    }
}

proof fn lemma_cyclic_pred_injective(out: Seq<usize>, a: usize, b: usize)
    requires
        out.no_duplicates(),
        out.contains(a),
        out.contains(b),
        cyclic_pred(out, a) == cyclic_pred(out, b),
    ensures
        a == b,
{
    lemma_first_pos(out, a);
    lemma_first_pos(out, b);
    let pa = first_pos(out, a);
    let pb = first_pos(out, b);
    let qa = if pa == 0 { out.len() - 1 } else { pa - 1 };
    let qb = if pb == 0 { out.len() - 1 } else { pb - 1 };
    assert(out[qa] == out[qb]);
    assert(qa == qb);
    assert(pa == pb);
}

proof fn lemma_linked_next_injective_at(vertices: Seq<FBGVertex>, hs: Seq<FBGHalfEdge>, i: int, j: int)
    requires
        links_in_range(vertices, hs),
        outgoing_partition(vertices, hs),
        twins_involutive(hs),
        0 <= i < hs.len(),
        0 <= j < hs.len(),
        linked_next(vertices, hs, i) == linked_next(vertices, hs, j),
    ensures
        i == j,
{
    lemma_linked_next_at(vertices, hs, i);
    lemma_linked_next_at(vertices, hs, j);
    let ti = hs[i].twin;
    let tj = hs[j].twin;
    let oi = hs[ti as int].origin;
    let out = vertices[oi as int].outgoing@;
    lemma_cyclic_pred_injective(out, ti, tj);
}

/// The half-edge reached from `i` after following `k` next pointers.
pub open spec fn follow_next(hs: Seq<FBGHalfEdge>, i: int, k: nat) -> int
    decreases k,
{
    if k == 0 {
        i
    } else {
        hs[follow_next(hs, i, (k - 1) as nat)].next as int
    }
}

/// The twin index of half-edge `i`: `i + 1` for even `i`, `i - 1` for odd.
pub open spec fn twin_index(i: int) -> int {
    if i % 2 == 0 {
        i + 1
    } else {
        i - 1
    }
}

/// The law of a linked face boundary graph: half-edges come in twin pairs
/// (2k, 2k+1) leaving different vertices; every next pointer names a
/// half-edge leaving the vertex where the half-edge ends (its twin's
/// origin); next is a permutation of the half-edges, so following it from
/// any half-edge comes back to it within as many steps as there are
/// half-edges; and every vertex can be reached from vertex 0.
pub open spec fn linked_graph_law(vertices: Seq<FBGVertex>, hs: Seq<FBGHalfEdge>) -> bool {
    &&& forall|i: int| 0 <= i < hs.len() ==> #[trigger] half_edge_law(hs, i)
    &&& forall|i: int, j: int| 0 <= i < hs.len() && 0 <= j < hs.len() && #[trigger] hs[i].next == #[trigger] hs[j].next ==> i == j
    &&& forall|j: int| 0 <= j < hs.len() ==> #[trigger] is_successor(hs, j)
    &&& forall|i: int| 0 <= i < hs.len() ==> #[trigger] returns_to(hs, i)
    &&& forall|v: int| 0 <= v < vertices.len() ==> reachable(vertex_arcs(vertices, hs), 0, v)
}

/// Half-edge `i` knows its index, sits in its twin pair (2k, 2k+1), leaves a
/// vertex other than its twin's, and its successor is a half-edge leaving the
/// vertex where it ends (its twin's origin).
pub open spec fn half_edge_law(hs: Seq<FBGHalfEdge>, i: int) -> bool {
    &&& hs[i].id == i
    &&& hs[i].twin == twin_index(i)
    &&& 0 <= twin_index(i) < hs.len()
    &&& hs[hs[i].twin as int].twin == i
    &&& hs[i].origin != hs[hs[i].twin as int].origin
    &&& hs[i].next < hs.len()
    &&& hs[hs[i].next as int].origin == hs[hs[i].twin as int].origin
}

/// Half-edge `j` is the successor of some half-edge.
pub open spec fn is_successor(hs: Seq<FBGHalfEdge>, j: int) -> bool {
    exists|i: int| 0 <= i < hs.len() && #[trigger] hs[i].next == j
}

/// Following next pointers from half-edge `i` comes back to it within as many
/// steps as there are half-edges.
pub open spec fn returns_to(hs: Seq<FBGHalfEdge>, i: int) -> bool {
    exists|k: nat| 1 <= k <= hs.len() && #[trigger] follow_next(hs, i, k) == i
}

proof fn lemma_linked_pairs(vs: Seq<FBGVertex>, hs: Seq<FBGHalfEdge>, lh: Seq<FBGHalfEdge>, nv: int, i: int)
    requires
        links_in_range(vs, hs),
        outgoing_partition(vs, hs),
        twins_involutive(hs),
        paired(hs, nv),
        lh.len() == hs.len(),
        forall|k: int| 0 <= k < hs.len() ==> #[trigger] lh[k] == with_next(hs[k], linked_next(vs, hs, k)),
        0 <= i < lh.len(),
    ensures
        half_edge_law(lh, i),
{
    assert(he_paired(hs, i, nv));
    lemma_linked_next_at(vs, hs, i);
    let t = twin_index(i);
    assert(lh[t] == with_next(hs[t], linked_next(vs, hs, t)));
    let nx = linked_next(vs, hs, i) as int;
    assert(lh[nx] == with_next(hs[nx], linked_next(vs, hs, nx)));
}

proof fn lemma_linked_arcs(vs: Seq<FBGVertex>, hs: Seq<FBGHalfEdge>, lh: Seq<FBGHalfEdge>)
    requires
        links_in_range(vs, hs),
        lh.len() == hs.len(),
        forall|i: int| 0 <= i < hs.len() ==> #[trigger] lh[i] == with_next(hs[i], linked_next(vs, hs, i)),
    ensures
        vertex_arcs(vs, lh) == vertex_arcs(vs, hs),
{
    assert forall|v: int| 0 <= v < vs.len() implies #[trigger] vertex_arcs(vs, lh)[v] =~= vertex_arcs(vs, hs)[v] by {
        assert forall|k: int| 0 <= k < vs[v].outgoing@.len() implies vertex_arcs(vs, lh)[v][k] == vertex_arcs(vs, hs)[v][k] by {
            let h = vs[v].outgoing@[k] as int;
            assert(h < hs.len());
            assert(lh[h] == with_next(hs[h], linked_next(vs, hs, h)));
            let t = hs[h].twin as int;
            assert(t < hs.len());
            assert(lh[t] == with_next(hs[t], linked_next(vs, hs, t)));
        }
    }
    assert(vertex_arcs(vs, lh) =~= vertex_arcs(vs, hs));
}

proof fn lemma_linked_onto_all(vs: Seq<FBGVertex>, hs: Seq<FBGHalfEdge>, lh: Seq<FBGHalfEdge>)
    requires
        links_in_range(vs, hs),
        outgoing_partition(vs, hs),
        twins_involutive(hs),
        hs.len() <= usize::MAX,
        lh.len() == hs.len(),
        forall|i: int| 0 <= i < hs.len() ==> #[trigger] lh[i] == with_next(hs[i], linked_next(vs, hs, i)),
    ensures
        forall|j: int| 0 <= j < lh.len() ==> #[trigger] is_successor(lh, j),
{
    assert forall|j: int| 0 <= j < lh.len() implies #[trigger] is_successor(lh, j) by {
        lemma_linked_next_onto(vs, hs, j);
        let i = choose|i: int| 0 <= i < hs.len() && linked_next(vs, hs, i) as int == j;
        assert(lh[i] == with_next(hs[i], linked_next(vs, hs, i)));
        assert(lh[i].next == j);
    }
}

proof fn lemma_linked_returns_all(lh: Seq<FBGHalfEdge>)
    requires
        nexts_in_range(lh),
        next_injective(lh),
    ensures
        forall|i: int| 0 <= i < lh.len() ==> #[trigger] returns_to(lh, i),
{
    assert forall|i: int| 0 <= i < lh.len() implies #[trigger] returns_to(lh, i) by {
        lemma_orbit_returns(lh, i);
    }
}

proof fn lemma_linked_pairs_all(vs: Seq<FBGVertex>, hs: Seq<FBGHalfEdge>, lh: Seq<FBGHalfEdge>, nv: int)
    requires
        links_in_range(vs, hs),
        outgoing_partition(vs, hs),
        twins_involutive(hs),
        paired(hs, nv),
        lh.len() == hs.len(),
        forall|i: int| 0 <= i < hs.len() ==> #[trigger] lh[i] == with_next(hs[i], linked_next(vs, hs, i)),
    ensures
        forall|i: int| 0 <= i < lh.len() ==> #[trigger] half_edge_law(lh, i),
{
    assert forall|i: int| 0 <= i < lh.len() implies #[trigger] half_edge_law(lh, i) by {
        lemma_linked_pairs(vs, hs, lh, nv, i);
    }
}

proof fn lemma_linked_law(vs: Seq<FBGVertex>, hs: Seq<FBGHalfEdge>, lh: Seq<FBGHalfEdge>, nv: int)
    requires
        links_in_range(vs, hs),
        outgoing_partition(vs, hs),
        twins_involutive(hs),
        paired(hs, nv),
        hs.len() <= usize::MAX,
        lh.len() == hs.len(),
        forall|i: int| 0 <= i < hs.len() ==> #[trigger] lh[i] == with_next(hs[i], linked_next(vs, hs, i)),
        nexts_in_range(lh),
        next_injective(lh),
        forall|v: int| 0 <= v < vs.len() ==> reachable(vertex_arcs(vs, hs), 0, v),
    ensures
        linked_graph_law(vs, lh),
{
    lemma_linked_pairs_all(vs, hs, lh, nv);
    lemma_linked_onto_all(vs, hs, lh);
    lemma_linked_returns_all(lh);
    lemma_linked_arcs(vs, hs, lh);
    assert(forall|i: int, j: int| 0 <= i < lh.len() && 0 <= j < lh.len() && #[trigger] lh[i].next == #[trigger] lh[j].next ==> i == j) by {
        reveal(next_injective);
    }
}

proof fn lemma_first_pos_at(out: Seq<usize>, q: int)
    requires
        out.no_duplicates(),
        0 <= q < out.len(),
    ensures
        first_pos(out, out[q]) == q,
{
    lemma_first_pos(out, out[q]);
}

/// Every half-edge is the successor of some half-edge.
proof fn lemma_linked_next_onto(vertices: Seq<FBGVertex>, hs: Seq<FBGHalfEdge>, j: int)
    requires
        links_in_range(vertices, hs),
        outgoing_partition(vertices, hs),
        twins_involutive(hs),
        0 <= j < hs.len(),
        hs.len() <= usize::MAX,
    ensures
        exists|i: int| 0 <= i < hs.len() && linked_next(vertices, hs, i) as int == j,
{
    let v = hs[j].origin as int;
    let out = vertices[v].outgoing@;
    assert(v < vertices.len());
    assert(out.contains(j as usize) && out.no_duplicates()) by {
        reveal(outgoing_partition);
    }
    lemma_first_pos(out, j as usize);
    let p = first_pos(out, j as usize);
    let q = if p + 1 < out.len() { p + 1 } else { 0 };
    let t = out[q];
    assert(t < hs.len());
    assert(hs[t as int].origin == v) by {
        reveal(outgoing_partition);
    }
    let i = hs[t as int].twin as int;
    assert(0 <= i < hs.len());
    assert(hs[i].twin == t) by {
        reveal(twins_involutive);
    }
    lemma_linked_next_at(vertices, hs, i);
    lemma_first_pos_at(out, q);
    assert(first_pos(out, t) == q);
    assert(linked_next(vertices, hs, i) == j as usize);
    assert(0 <= i < hs.len() && linked_next(vertices, hs, i) as int == j);
}

proof fn lemma_follow_back(hs: Seq<FBGHalfEdge>, i: int, a: nat, b: nat)
    requires
        nexts_in_range(hs),
        next_injective(hs),
        0 <= i < hs.len(),
        a <= b,
        follow_next(hs, i, a) == follow_next(hs, i, b),
    ensures
        follow_next(hs, i, 0) == follow_next(hs, i, (b - a) as nat),
    decreases a,
{
    reveal(next_injective);
    lemma_follow_range(hs, i, a);
    lemma_follow_range(hs, i, b);
    if a > 0 {
        lemma_follow_range(hs, i, (a - 1) as nat);
        lemma_follow_range(hs, i, (b - 1) as nat);
        let x = follow_next(hs, i, (a - 1) as nat);
        let y = follow_next(hs, i, (b - 1) as nat);
        assert(hs[x].next == hs[y].next);
        assert(x == y);
        lemma_follow_back(hs, i, (a - 1) as nat, (b - 1) as nat);
    }
}

proof fn lemma_follow_range(hs: Seq<FBGHalfEdge>, i: int, k: nat)
    requires
        nexts_in_range(hs),
        0 <= i < hs.len(),
    ensures
        0 <= follow_next(hs, i, k) < hs.len(),
    decreases k,
{
    if k > 0 {
        lemma_follow_range(hs, i, (k - 1) as nat);
    }
}

/// Following an injective next pointer from a half-edge comes back to it.
proof fn lemma_orbit_returns(hs: Seq<FBGHalfEdge>, i: int)
    requires
        nexts_in_range(hs),
        next_injective(hs),
        0 <= i < hs.len(),
    ensures
        exists|k: nat| 1 <= k <= hs.len() && #[trigger] follow_next(hs, i, k) == i,
{
    let n = hs.len() as int;
    let s = Seq::new((n + 1) as nat, |k: int| follow_next(hs, i, k as nat));
    assert forall|k: int| 0 <= k < s.len() implies 0 <= #[trigger] s[k] < n by {
        lemma_follow_range(hs, i, k as nat);
    }
    if s.no_duplicates() {
        s.unique_seq_to_set();
        vstd::set_lib::lemma_int_range(0, n);
        assert(s.to_set().subset_of(vstd::set_lib::set_int_range(0, n))) by {
            assert forall|x: int| s.to_set().contains(x) implies vstd::set_lib::set_int_range(0, n).contains(x) by {
                let k = choose|k: int| 0 <= k < s.len() && s[k] == x;
            }
        }
        vstd::set_lib::lemma_len_subset(s.to_set(), vstd::set_lib::set_int_range(0, n));
        assert(false);
    }
    let (a, b) = choose|a: int, b: int| 0 <= a < s.len() && 0 <= b < s.len() && a != b && s[a] == s[b];
    let (lo, hi) = if a < b { (a, b) } else { (b, a) };
    assert(follow_next(hs, i, lo as nat) == follow_next(hs, i, hi as nat));
    lemma_follow_back(hs, i, lo as nat, hi as nat);
    assert(follow_next(hs, i, (hi - lo) as nat) == i);
}

/// Linking makes the next pointers a permutation of the half-edges: when every
/// outgoing list holds exactly the half-edges leaving its vertex (in any
/// order), each once, and twins pair up, every half-edge of the linked graph
/// (see `link`) gets a successor, no two get the same one, and no half-edge
/// becomes used — so extracting cycles from it (see `extract_cycles`) puts
/// every half-edge on a cycle when none was used before.
pub proof fn linking_gives_permutation(vertices: Seq<FBGVertex>, hs: Seq<FBGHalfEdge>, linked: Seq<FBGHalfEdge>)
    requires
        links_in_range(vertices, hs),
        outgoing_partition(vertices, hs),
        twins_involutive(hs),
        linked.len() == hs.len(),
        forall|i: int| 0 <= i < hs.len() ==> #[trigger] linked[i] == with_next(hs[i], linked_next(vertices, hs, i)),
    ensures
        nexts_in_range(linked),
        next_injective(linked),
        forall|i: int| 0 <= i < hs.len() ==> (#[trigger] linked[i]).used == hs[i].used,
{
    reveal(next_injective);
    assert forall|i: int| 0 <= i < linked.len() implies (#[trigger] linked[i]).next < linked.len() by {
        lemma_linked_next_at(vertices, hs, i);
    }
    assert forall|i: int, j: int|
        0 <= i < linked.len() && 0 <= j < linked.len() && #[trigger] linked[i].next == #[trigger] linked[j].next implies i == j by {
        lemma_linked_next_injective_at(vertices, hs, i, j);
    }
}

} // verus!
