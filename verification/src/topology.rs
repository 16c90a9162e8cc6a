//! The topological content of a shell: faces bounded by wires of oriented
//! edge uses, identified by the raw `SequentialID` values of their entities.
use vstd::prelude::*;

verus! {

/// One use of an edge in a wire: the edge, the vertices at its start and end
/// in the direction of the wire, and whether the wire runs along the edge's
/// own direction.
#[derive(Clone, Copy, PartialEq, Eq, Structural, Debug)]
pub struct EdgeUse {
    /// Identity of the edge (shared by both orientations).
    pub edge: u64,
    /// Identity of the vertex at which this use starts.
    pub front: u64,
    /// Identity of the vertex at which this use ends.
    pub back: u64,
    /// Whether this use runs along the edge's own direction.
    pub forward: bool,
}

/// A face: its identity and its boundary wires, each an ordered list of edge
/// uses in the order the face runs them once its own orientation is taken
/// into account. For a face of positive orientation that is the order its
/// wires are stored in; a face that is turned over runs each wire backwards
/// (see `inverse_face`).
#[derive(Debug)]
pub struct FaceTopo {
    /// Identity of the face.
    pub id: u64,
    /// The boundary wires.
    pub boundaries: Vec<Vec<EdgeUse>>,
}

/// The boundary wires of a face as sequences.
pub open spec fn wires_of(face: FaceTopo) -> Seq<Seq<EdgeUse>> {
    face.boundaries@.map_values(|w: Vec<EdgeUse>| w@)
}

/// The mathematical content of a face: its identity and its wires.
pub struct FaceView {
    /// Identity of the face.
    pub id: u64,
    /// The boundary wires.
    pub wires: Seq<Seq<EdgeUse>>,
}

impl View for FaceTopo {
    type V = FaceView;

    open spec fn view(&self) -> FaceView {
        FaceView { id: self.id, wires: wires_of(*self) }
    }
}

/// The views of a list of faces.
pub open spec fn views(faces: Seq<FaceTopo>) -> Seq<FaceView> {
    faces.map_values(|f: FaceTopo| f@)
}

/// Copies a wire.
pub(crate) fn copy_wire(w: &Vec<EdgeUse>) -> (r: Vec<EdgeUse>)
    ensures
        r@ == w@,
{
    let mut r: Vec<EdgeUse> = Vec::new();
    let mut k: usize = 0;
    while k < w.len()
        invariant
            k <= w@.len(),
            r@ == w@.take(k as int),
        decreases w@.len() - k,
    {
        r.push(w[k]);
        assert(w@.take(k + 1) =~= w@.take(k as int).push(w@[k as int]));
        k = k + 1;
    }
    assert(w@.take(w@.len() as int) =~= w@);
    r
}

impl Clone for FaceTopo {
    fn clone(&self) -> (r: Self)
        ensures
            r@ == self@,
    {
        let mut boundaries: Vec<Vec<EdgeUse>> = Vec::new();
        let mut i: usize = 0;
        while i < self.boundaries.len()
            invariant
                i <= self.boundaries@.len(),
                boundaries@.len() == i,
                forall|j: int| 0 <= j < i ==> #[trigger] boundaries@[j]@ == self.boundaries@[j]@,
            decreases self.boundaries@.len() - i,
        {
            boundaries.push(copy_wire(&self.boundaries[i]));
            i = i + 1;
        }
        let r = FaceTopo { id: self.id, boundaries };
        assert(wires_of(r) =~= wires_of(*self));
        r
    }
}

/// An entry of the half-edge table of a list of faces: where an edge use sits
/// (face, wire and edge index) and the use itself.
#[derive(Clone, Copy, PartialEq, Eq, Structural, Debug)]
pub struct HalfEdgeRecord {
    /// Index of the face in the list.
    pub face_idx: usize,
    /// Index of the wire in the face's boundaries.
    pub wire_idx: usize,
    /// Index of the edge use in the wire.
    pub edge_idx: usize,
    /// The edge use.
    pub edge_use: EdgeUse,
}

/// The records of one wire, in wire order.
pub open spec fn wire_records(f: int, w: int, wire: Seq<EdgeUse>) -> Seq<HalfEdgeRecord> {
    Seq::new(
        wire.len(),
        |k: int|
            HalfEdgeRecord {
                face_idx: f as usize,
                wire_idx: w as usize,
                edge_idx: k as usize,
                edge_use: wire[k],
            },
    )
}

/// The records of the first `n` wires of a face.
pub open spec fn face_records_upto(f: int, wires: Seq<Seq<EdgeUse>>, n: int) -> Seq<HalfEdgeRecord> {
    Seq::new(n as nat, |w: int| wire_records(f, w, wires[w])).flatten()
}

/// The records of a face, wire by wire.
pub open spec fn face_records(f: int, face: FaceView) -> Seq<HalfEdgeRecord> {
    face_records_upto(f, face.wires, face.wires.len() as int)
}

/// The records of the first `n` faces.
pub open spec fn table_upto(faces: Seq<FaceView>, n: int) -> Seq<HalfEdgeRecord> {
    Seq::new(n as nat, |f: int| face_records(f, faces[f])).flatten()
}

/// The half-edge table of a list of faces: every edge use, face by face, wire
/// by wire, in wire order.
pub open spec fn half_edge_table(faces: Seq<FaceView>) -> Seq<HalfEdgeRecord> {
    table_upto(faces, faces.len() as int)
}

pub(crate) proof fn lemma_flatten_new_step<A>(n: nat, g: spec_fn(int) -> Seq<A>)
    ensures
        Seq::new(n + 1, g).flatten() == Seq::new(n, g).flatten() + g(n as int),
{
    assert(Seq::new(n + 1, g) =~= Seq::new(n, g).push(g(n as int)));
    Seq::new(n, g).lemma_flatten_push(g(n as int));
}

/// Builds the half-edge table: one record per edge use of every face.
pub fn build_half_edge_table(faces: &[FaceTopo]) -> (r: Vec<HalfEdgeRecord>)
    ensures
        r@ == half_edge_table(views(faces@)),
{
    let ghost fv = views(faces@);
    let mut table: Vec<HalfEdgeRecord> = Vec::new();
    let mut fi: usize = 0;
    while fi < faces.len()
        invariant
            fi <= faces@.len(),
            fv == views(faces@),
            table@ == table_upto(fv, fi as int),
        decreases faces@.len() - fi,
    {
        let face = &faces[fi];
        let ghost wires = wires_of(*face);
        let mut wi: usize = 0;
        while wi < face.boundaries.len()
            invariant
                fi < faces@.len(),
                fv == views(faces@),
                *face == faces@[fi as int],
                wires == wires_of(*face),
                wi <= wires.len(),
                table@ == table_upto(fv, fi as int) + face_records_upto(fi as int, wires, wi as int),
            decreases wires.len() - wi,
        {
            let wire = &face.boundaries[wi];
            let mut ei: usize = 0;
            while ei < wire.len()
                invariant
                    fi < faces@.len(),
                    fv == views(faces@),
                    wi < wires.len(),
                    wire@ == wires[wi as int],
                    ei <= wire@.len(),
                    table@ == table_upto(fv, fi as int) + face_records_upto(fi as int, wires, wi as int)
                        + wire_records(fi as int, wi as int, wire@).take(ei as int),
                decreases wire@.len() - ei,
            {
                table.push(HalfEdgeRecord { face_idx: fi, wire_idx: wi, edge_idx: ei, edge_use: wire[ei] });
                proof {
                    let wr = wire_records(fi as int, wi as int, wire@);
                    assert(wr.take(ei + 1) =~= wr.take(ei as int).push(wr[ei as int]));
                }
                ei = ei + 1;
            }
            proof {
                let g = |w: int| wire_records(fi as int, w, wires[w]);
                lemma_flatten_new_step(wi as nat, g);
                assert(wire_records(fi as int, wi as int, wire@).take(wire@.len() as int)
                    =~= wire_records(fi as int, wi as int, wire@));
            }
            wi = wi + 1;
        }
        proof {
            let g = |f: int| face_records(f, fv[f]);
            lemma_flatten_new_step(fi as nat, g);
        }
        fi = fi + 1;
    }
    table
}

} // verus!

verus! {

/// The vertices met by a sequence of records: both ends of every edge use.
pub open spec fn vertex_ids(t: Seq<HalfEdgeRecord>) -> Set<u64>
    decreases t.len(),
{
    if t.len() == 0 {
        Set::empty()
    } else {
        vertex_ids(t.drop_last()).insert(t.last().edge_use.front).insert(t.last().edge_use.back)
    }
}

/// The edges used by a sequence of records.
pub open spec fn edge_ids(t: Seq<HalfEdgeRecord>) -> Set<u64>
    decreases t.len(),
{
    if t.len() == 0 {
        Set::empty()
    } else {
        edge_ids(t.drop_last()).insert(t.last().edge_use.edge)
    }
}

/// How many records use edge `e`.
pub open spec fn use_count(t: Seq<HalfEdgeRecord>, e: u64) -> nat
    decreases t.len(),
{
    if t.len() == 0 {
        0
    } else {
        use_count(t.drop_last(), e) + if t.last().edge_use.edge == e {
            1nat
        } else {
            0nat
        }
    }
}

/// The Euler characteristic V - E + F of a list of faces: distinct vertices,
/// distinct edges and faces.
pub open spec fn euler_chi(faces: Seq<FaceView>) -> int {
    vertex_ids(half_edge_table(faces)).len() - edge_ids(half_edge_table(faces)).len() + faces.len()
}

proof fn lemma_id_sets_bounded(t: Seq<HalfEdgeRecord>)
    ensures
        vertex_ids(t).finite(),
        vertex_ids(t).len() <= 2 * t.len(),
        edge_ids(t).finite(),
        edge_ids(t).len() <= t.len(),
    decreases t.len(),
{
    if t.len() > 0 {
        lemma_id_sets_bounded(t.drop_last());
    }
}

/// Euler characteristic check of a shell: `Ok` when V - E + F = 2 (a closed
/// genus-0 surface), otherwise `Err((V, E, F, chi))` with the computed values.
pub fn validate_euler_characteristic(faces: &[FaceTopo]) -> (r: Result<(), (usize, usize, usize, i64)>)
    requires
        3 * half_edge_table(views(faces@)).len() + faces@.len() <= i64::MAX,
    ensures
        r is Ok <==> euler_chi(views(faces@)) == 2,
        r matches Err((v, e, f, chi)) ==> {
            &&& v == vertex_ids(half_edge_table(views(faces@))).len()
            &&& e == edge_ids(half_edge_table(views(faces@))).len()
            &&& f == faces@.len()
            &&& chi == euler_chi(views(faces@))
        },
{
    let table = build_half_edge_table(faces);
    let ghost t = table@;
    let mut vertices: std::collections::HashSet<u64> = std::collections::HashSet::new();
    let mut edges: std::collections::HashSet<u64> = std::collections::HashSet::new();
    let mut i: usize = 0;
    while i < table.len()
        invariant
            table@ == t,
            i <= t.len(),
            vertices@ == vertex_ids(t.take(i as int)),
            edges@ == edge_ids(t.take(i as int)),
        decreases t.len() - i,
    {
        let u = table[i].edge_use;
        edges.insert(u.edge);
        vertices.insert(u.front);
        vertices.insert(u.back);
        assert(t.take(i + 1).drop_last() =~= t.take(i as int));
        i = i + 1;
    }
    assert(t.take(t.len() as int) =~= t);
    proof {
        lemma_id_sets_bounded(t);
    }
    let v = vertices.len();
    let e = edges.len();
    let f = faces.len();
    let chi = v as i64 - e as i64 + f as i64;
    if chi == 2 {
        Ok(())
    } else {
        Err((v, e, f, chi))
    }
}

} // verus!

verus! {

/// An edge that is not used by exactly two faces (open or over-shared), with
/// the number of uses.
#[derive(Clone, Copy, PartialEq, Eq, Structural, Debug)]
pub struct OpenEdgeInfo {
    /// Identity of the edge.
    pub edge: u64,
    /// Number of face references to this edge (2 for a closed shell).
    pub face_count: usize,
}

pub(crate) proof fn lemma_use_count_bounds(t: Seq<HalfEdgeRecord>, e: u64)
    ensures
        use_count(t, e) <= t.len(),
        !edge_ids(t).contains(e) ==> use_count(t, e) == 0,
        use_count(t, e) > 0 ==> edge_ids(t).contains(e),
    decreases t.len(),
{
    if t.len() > 0 {
        lemma_use_count_bounds(t.drop_last(), e);
    }
}

/// The index of `x` in `v`, if it occurs.
fn position_of(v: &Vec<u64>, x: u64) -> (r: Option<usize>)
    ensures
        r matches Some(p) ==> p < v@.len() && v@[p as int] == x,
        r is None ==> !v@.contains(x),
{
    let mut j: usize = 0;
    while j < v.len()
        invariant
            j <= v@.len(),
            forall|k: int| 0 <= k < j ==> v@[k] != x,
        decreases v@.len() - j,
    {
        if v[j] == x {
            return Some(j);
        }
        j = j + 1;
    }
    None
}

/// Whether `info` describes an edge of `t` used other than twice, with its
/// use count.
pub open spec fn is_open_entry(t: Seq<HalfEdgeRecord>, info: OpenEdgeInfo) -> bool {
    &&& edge_ids(t).contains(info.edge)
    &&& info.face_count == use_count(t, info.edge)
    &&& info.face_count != 2
}

pub(crate) proof fn lemma_push_contains(s: Seq<u64>, e: u64, x: u64)
    ensures
        s.push(e).contains(x) <==> (s.contains(x) || x == e),
{
    if s.contains(x) {
        let k = choose|k: int| 0 <= k < s.len() && s[k] == x;
        assert(s.push(e)[k] == x);
    }
    if s.push(e).contains(x) {
        let k = choose|k: int| 0 <= k < s.push(e).len() && s.push(e)[k] == x;
        if k < s.len() {
            assert(s[k] == x);
        }
    }
    assert(s.push(e)[s.len() as int] == e);
}

/// The distinct edges of a table in order of first use, with their use counts.
pub fn edge_use_counts(table: &Vec<HalfEdgeRecord>) -> (r: (Vec<u64>, Vec<usize>))
    ensures
        r.0@.len() == r.1@.len(),
        r.0@.no_duplicates(),
        forall|x: u64| r.0@.contains(x) <==> edge_ids(table@).contains(x),
        forall|j: int| 0 <= j < r.1@.len() ==> #[trigger] r.1@[j] == use_count(table@, r.0@[j]),
{
    let ghost t = table@;
    let mut edges: Vec<u64> = Vec::new();
    let mut counts: Vec<usize> = Vec::new();
    let mut i: usize = 0;
    while i < table.len()
        invariant
            table@ == t,
            i <= t.len(),
            edges@.len() == counts@.len(),
            edges@.no_duplicates(),
            forall|x: u64| edges@.contains(x) <==> edge_ids(t.take(i as int)).contains(x),
            forall|j: int|
                0 <= j < counts@.len() ==> #[trigger] counts@[j] == use_count(t.take(i as int), edges@[j]),
        decreases t.len() - i,
    {
        let e = table[i].edge_use.edge;
        let ghost before = t.take(i as int);
        assert(t.take(i + 1).drop_last() =~= before);
        assert(edge_ids(t.take(i + 1)) == edge_ids(before).insert(e));
        proof {
            assert forall|j: int| 0 <= j < counts@.len() implies #[trigger] counts@[j] <= i by {
                lemma_use_count_bounds(before, edges@[j]);
            }
        }
        let ghost old_edges = edges@;
        match position_of(&edges, e) {
            Some(p) => {
                let c = counts[p];
                counts.set(p, c + 1);
            },
            None => {
                proof {
                    lemma_use_count_bounds(before, e);
                }
                edges.push(e);
                counts.push(1);
                proof {
                    assert forall|x: u64| edges@.contains(x) <==> edge_ids(t.take(i + 1)).contains(x) by {
                        lemma_push_contains(old_edges, e, x);
                    }
                }
            },
        }
        i = i + 1;
    }
    assert(t.take(t.len() as int) =~= t);

    (edges, counts)
}

pub(crate) proof fn lemma_push_contains_usize(s: Seq<usize>, e: usize, x: usize)
    ensures
        s.push(e).contains(x) <==> (s.contains(x) || x == e),
{
    if s.contains(x) {
        let k = choose|k: int| 0 <= k < s.len() && s[k] == x;
        assert(s.push(e)[k] == x);
    }
    if s.push(e).contains(x) {
        let k = choose|k: int| 0 <= k < s.push(e).len() && s.push(e)[k] == x;
        if k < s.len() {
            assert(s[k] == x);
        }
    }
    assert(s.push(e)[s.len() as int] == e);
}

/// Inserts `item` into a list strictly increasing by edge, keeping it so, and
/// returns the position.
fn insert_by_edge(out: &mut Vec<OpenEdgeInfo>, item: OpenEdgeInfo) -> (p: usize)
    requires
        forall|a: int, b: int| 0 <= a < b < old(out)@.len() ==> old(out)@[a].edge < old(out)@[b].edge,
        forall|a: int| 0 <= a < old(out)@.len() ==> old(out)@[a].edge != item.edge,
    ensures
        forall|a: int, b: int| 0 <= a < b < final(out)@.len() ==> final(out)@[a].edge < final(out)@[b].edge,
        p <= old(out)@.len(),
        final(out)@ == old(out)@.insert(p as int, item),
{
    let mut p: usize = 0;
    while p < out.len() && out[p].edge < item.edge
        invariant
            p <= out@.len(),
            forall|a: int| 0 <= a < p ==> out@[a].edge < item.edge,
        decreases out@.len() - p,
    {
        p = p + 1;
    }
    let ghost old_out = out@;
    out.insert(p, item);
    p
}

/// The edges of a list of faces that are not used exactly twice, with their
/// use counts, in increasing order of edge identity. Empty for a closed shell.
pub fn diagnose_open_edges(faces: &[FaceTopo]) -> (r: Vec<OpenEdgeInfo>)
    ensures
        forall|a: int, b: int| 0 <= a < b < r@.len() ==> r@[a].edge < r@[b].edge,
        forall|a: int| 0 <= a < r@.len() ==> is_open_entry(half_edge_table(views(faces@)), #[trigger] r@[a]),
        forall|e: u64|
            edge_ids(half_edge_table(views(faces@))).contains(e) && use_count(half_edge_table(views(faces@)), e) != 2
                ==> exists|a: int| 0 <= a < r@.len() && #[trigger] r@[a].edge == e,
{
    let table = build_half_edge_table(faces);
    let ghost t = table@;
    let (edges, counts) = edge_use_counts(&table);
    let mut out: Vec<OpenEdgeInfo> = Vec::new();
    let mut j: usize = 0;
    while j < edges.len()
        invariant
            j <= edges@.len(),
            edges@.len() == counts@.len(),
            edges@.no_duplicates(),
            forall|x: u64| edges@.contains(x) <==> edge_ids(t).contains(x),
            forall|k: int| 0 <= k < counts@.len() ==> #[trigger] counts@[k] == use_count(t, edges@[k]),
            forall|a: int, b: int| 0 <= a < b < out@.len() ==> out@[a].edge < out@[b].edge,
            forall|a: int| 0 <= a < out@.len() ==> is_open_entry(t, #[trigger] out@[a]),
            forall|a: int| 0 <= a < out@.len() ==> edges@.take(j as int).contains(#[trigger] out@[a].edge),
            forall|k: int|
                #![trigger edges@[k]]
                0 <= k < j && counts@[k] != 2 ==> exists|a: int|
                    0 <= a < out@.len() && #[trigger] out@[a].edge == edges@[k],
        decreases edges@.len() - j,
    {
        let ghost old_out = out@;
        if counts[j] != 2 {
            let x = edges[j];
            proof {
                assert(edges@.contains(x));
                assert forall|a: int| 0 <= a < out@.len() implies out@[a].edge != x by {
                    let k = choose|k: int| 0 <= k < j && edges@.take(j as int)[k] == out@[a].edge;
                    assert(edges@[k] == out@[a].edge);
                }
            }
            let p = insert_by_edge(&mut out, OpenEdgeInfo { edge: x, face_count: counts[j] });
            proof {
                assert forall|a: int| 0 <= a < out@.len() implies is_open_entry(t, #[trigger] out@[a]) by {
                    if a < p {
                        assert(out@[a] == old_out[a]);
                    } else if a > p {
                        assert(out@[a] == old_out[a - 1]);
                    }
                }
                assert forall|a: int| 0 <= a < out@.len() implies edges@.take(j + 1).contains(#[trigger] out@[a].edge) by {
                    if a == p {
                        assert(edges@.take(j + 1)[j as int] == x);
                    } else {
                        let b = if a < p { a } else { a - 1 };
                        assert(out@[a] == old_out[b]);
                        let k = choose|k: int| 0 <= k < j && edges@.take(j as int)[k] == old_out[b].edge;
                        assert(edges@.take(j + 1)[k] == old_out[b].edge);
                    }
                }
                assert forall|k: int| #![trigger edges@[k]] 0 <= k < j + 1 && counts@[k] != 2 implies exists|a: int|
                    0 <= a < out@.len() && #[trigger] out@[a].edge == edges@[k] by {
                    if k == j {
                        assert(out@[p as int].edge == edges@[k]);
                    } else {
                        let b = choose|b: int| 0 <= b < old_out.len() && #[trigger] old_out[b].edge == edges@[k];
                        if b < p {
                            assert(out@[b].edge == edges@[k]);
                        } else {
                            assert(out@[b + 1].edge == edges@[k]);
                        }
                    }
                }
            }
        } else {
            proof {
                assert forall|a: int| 0 <= a < out@.len() implies edges@.take(j + 1).contains(#[trigger] out@[a].edge) by {
                    let k = choose|k: int| 0 <= k < j && edges@.take(j as int)[k] == out@[a].edge;
                    assert(edges@.take(j + 1)[k] == out@[a].edge);
                }
            }
        }
        j = j + 1;
    }
    proof {
        assert forall|e: u64| edge_ids(t).contains(e) && use_count(t, e) != 2 implies exists|a: int|
            0 <= a < out@.len() && #[trigger] out@[a].edge == e by {
            assert(edges@.contains(e));
            let k = choose|k: int| 0 <= k < edges@.len() && edges@[k] == e;
            assert(counts@[k] == use_count(t, edges@[k]));
        }
    }
    out
}

} // verus!

verus! {

/// Whether a wire returns to its start: the last use ends where the first
/// begins (an empty wire counts as closed).
pub open spec fn is_closed_wire(w: Seq<EdgeUse>) -> bool {
    w.len() == 0 || w.last().back == w[0].front
}

/// The vertices of a wire in order: the start of every use, then the end of
/// the last use when the wire is not closed.
pub open spec fn wire_vertices(w: Seq<EdgeUse>) -> Seq<u64> {
    let fronts = w.map_values(|u: EdgeUse| u.front);
    if is_closed_wire(w) {
        fronts
    } else {
        fronts.push(w.last().back)
    }
}

/// A wire is simple when no vertex occurs twice among its vertices.
pub open spec fn is_simple_wire(w: Seq<EdgeUse>) -> bool {
    wire_vertices(w).no_duplicates()
}

/// The vertices of a wire, in order (see `wire_vertices`).
pub fn wire_vertex_list(wire: &Vec<EdgeUse>) -> (r: Vec<u64>)
    ensures
        r@ == wire_vertices(wire@),
{
    let mut vs: Vec<u64> = Vec::new();
    let mut i: usize = 0;
    while i < wire.len()
        invariant
            i <= wire@.len(),
            vs@ == wire@.take(i as int).map_values(|u: EdgeUse| u.front),
        decreases wire@.len() - i,
    {
        vs.push(wire[i].front);
        assert(wire@.take(i + 1).map_values(|u: EdgeUse| u.front) =~= wire@.take(i as int).map_values(
            |u: EdgeUse| u.front,
        ).push(wire@[i as int].front));
        i = i + 1;
    }
    assert(wire@.take(wire@.len() as int) =~= wire@);
    if wire.len() > 0 && wire[wire.len() - 1].back != wire[0].front {
        vs.push(wire[wire.len() - 1].back);
    }
    vs
}

/// Whether a wire is simple (no repeated vertex).
pub fn is_simple(wire: &Vec<EdgeUse>) -> (r: bool)
    ensures
        r == is_simple_wire(wire@),
{
    let vs = wire_vertex_list(wire);
    assert(vs@ == wire_vertices(wire@));
    let mut seen: std::collections::HashSet<u64> = std::collections::HashSet::new();
    let mut k: usize = 0;
    while k < vs.len()
        invariant
            k <= vs@.len(),
            vs@ == wire_vertices(wire@),
            forall|x: u64| seen@.contains(x) <==> vs@.take(k as int).contains(x),
            vs@.take(k as int).no_duplicates(),
        decreases vs@.len() - k,
    {
        let x = vs[k];
        let fresh = seen.insert(x);
        if !fresh {
            let ghost j = choose|j: int| 0 <= j < k && vs@.take(k as int)[j] == x;
            assert(vs@[j] == vs@[k as int]);
            return false;
        }
        proof {
            let pre = vs@.take(k as int);
            assert(vs@.take(k + 1) =~= pre.push(x));
            assert forall|y: u64| seen@.contains(y) <==> vs@.take(k + 1).contains(y) by {
                if pre.contains(y) {
                    let j = choose|j: int| 0 <= j < pre.len() && pre[j] == y;
                    assert(vs@.take(k + 1)[j] == y);
                }
                if vs@.take(k + 1).contains(y) {
                    let j = choose|j: int| 0 <= j < k + 1 && #[trigger] vs@.take(k + 1)[j] == y;
                    if j < k {
                        assert(pre[j] == y);
                    }
                }
                assert(vs@.take(k + 1)[k as int] == x);
            }
            assert forall|a: int, b: int| 0 <= a < b < k + 1 implies #[trigger] vs@.take(k + 1)[a] != #[trigger] vs@.take(k + 1)[b] by {
                if b == k {
                    assert(pre.contains(vs@.take(k + 1)[a])) by {
                        assert(pre[a] == vs@.take(k + 1)[a]);
                    }
                } else {
                    assert(pre[a] == vs@.take(k + 1)[a]);
                    assert(pre[b] == vs@.take(k + 1)[b]);
                }
            }
        }
        k = k + 1;
    }
    assert(vs@.take(vs@.len() as int) =~= vs@);
    true
}

/// The non-simple wires of the first `n` wires of face `f`, as
/// (face index, wire index) pairs.
pub open spec fn face_non_simple_upto(f: int, wires: Seq<Seq<EdgeUse>>, n: int) -> Seq<(usize, usize)> {
    Seq::new(
        n as nat,
        |w: int|
            if is_simple_wire(wires[w]) {
                Seq::<(usize, usize)>::empty()
            } else {
                seq![(f as usize, w as usize)]
            },
    ).flatten()
}

/// The non-simple wires of the first `n` faces, face by face, wire by wire.
pub open spec fn non_simple_upto(faces: Seq<FaceView>, n: int) -> Seq<(usize, usize)> {
    Seq::new(n as nat, |f: int| face_non_simple_upto(f, faces[f].wires, faces[f].wires.len() as int)).flatten()
}

proof fn lemma_concat_contains<A>(a: Seq<A>, b: Seq<A>, x: A)
    ensures
        (a + b).contains(x) <==> (a.contains(x) || b.contains(x)),
{
    if (a + b).contains(x) {
        let k = choose|k: int| 0 <= k < (a + b).len() && (a + b)[k] == x;
        if k < a.len() {
            assert(a[k] == x);
        } else {
            assert(b[k - a.len()] == x);
        }
    }
    if a.contains(x) {
        let k = choose|k: int| 0 <= k < a.len() && a[k] == x;
        assert((a + b)[k] == x);
    }
    if b.contains(x) {
        let k = choose|k: int| 0 <= k < b.len() && b[k] == x;
        assert((a + b)[k + a.len()] == x);
    }
}

proof fn lemma_face_non_simple(f: int, wires: Seq<Seq<EdgeUse>>, n: int, x: (usize, usize))
    requires
        0 <= n <= wires.len(),
        0 <= f <= usize::MAX,
        wires.len() <= usize::MAX,
    ensures
        face_non_simple_upto(f, wires, n).contains(x) <==> (x.0 == f as usize && (x.1 as int) < n && !is_simple_wire(
            wires[x.1 as int],
        )),
    decreases n,
{
    if n > 0 {
        lemma_face_non_simple(f, wires, n - 1, x);
        let g = |w: int|
            if is_simple_wire(wires[w]) {
                Seq::<(usize, usize)>::empty()
            } else {
                seq![(f as usize, w as usize)]
            };
        lemma_flatten_new_step((n - 1) as nat, g);
        lemma_concat_contains(face_non_simple_upto(f, wires, n - 1), g(n - 1), x);
        if g(n - 1).contains(x) {
            assert(g(n - 1)[0] == x);
        }
        if x.0 == f as usize && x.1 as int == n - 1 && !is_simple_wire(wires[n - 1]) {
            assert(g(n - 1)[0] == x);
        }
    } else {
        assert(face_non_simple_upto(f, wires, 0) =~= Seq::<(usize, usize)>::empty());
    }
}

proof fn lemma_non_simple(faces: Seq<FaceView>, n: int, x: (usize, usize))
    requires
        0 <= n <= faces.len(),
        faces.len() <= usize::MAX,
        forall|f: int| 0 <= f < faces.len() ==> (#[trigger] faces[f]).wires.len() <= usize::MAX,
    ensures
        non_simple_upto(faces, n).contains(x) <==> ((x.0 as int) < n && (x.1 as int) < faces[x.0 as int].wires.len()
            && !is_simple_wire(faces[x.0 as int].wires[x.1 as int])),
    decreases n,
{
    if n > 0 {
        lemma_non_simple(faces, n - 1, x);
        let g = |f: int| face_non_simple_upto(f, faces[f].wires, faces[f].wires.len() as int);
        lemma_flatten_new_step((n - 1) as nat, g);
        lemma_concat_contains(non_simple_upto(faces, n - 1), g(n - 1), x);
        lemma_face_non_simple(n - 1, faces[n - 1].wires, faces[n - 1].wires.len() as int, x);
    } else {
        assert(non_simple_upto(faces, 0) =~= Seq::<(usize, usize)>::empty());
    }
}

/// Every non-simple wire is reported, whatever its place in its face, and
/// only those: the pair (face index, wire index) is in the report exactly
/// when that wire visits a vertex twice.
pub proof fn non_simple_wires_are_exactly_reported(faces: Seq<FaceView>)
    requires
        faces.len() <= usize::MAX,
        forall|f: int| 0 <= f < faces.len() ==> (#[trigger] faces[f]).wires.len() <= usize::MAX,
    ensures
        forall|f: int, w: int|
            0 <= f < faces.len() && 0 <= w < faces[f].wires.len() ==> (#[trigger] non_simple_upto(faces, faces.len() as int).contains(
                (f as usize, w as usize),
            ) <==> !is_simple_wire(#[trigger] faces[f].wires[w])),
        forall|x: (usize, usize)|
            #[trigger] non_simple_upto(faces, faces.len() as int).contains(x) ==> (x.0 as int) < faces.len() && (x.1 as int)
                < faces[x.0 as int].wires.len(),
{
    assert forall|f: int, w: int| 0 <= f < faces.len() && 0 <= w < faces[f].wires.len() implies (#[trigger] non_simple_upto(
        faces,
        faces.len() as int,
    ).contains((f as usize, w as usize)) <==> !is_simple_wire(#[trigger] faces[f].wires[w])) by {
        lemma_non_simple(faces, faces.len() as int, (f as usize, w as usize));
    }
    assert forall|x: (usize, usize)| #[trigger] non_simple_upto(faces, faces.len() as int).contains(x) implies (x.0 as int)
        < faces.len() && (x.1 as int) < faces[x.0 as int].wires.len() by {
        lemma_non_simple(faces, faces.len() as int, x);
    }
}

/// The (face index, wire index) pairs of all non-simple boundary wires, in
/// face order and wire order.
pub fn find_non_simple_wires(faces: &[FaceTopo]) -> (r: Vec<(usize, usize)>)
    ensures
        r@ == non_simple_upto(views(faces@), faces@.len() as int),
{
    let ghost fv = views(faces@);
    let mut result: Vec<(usize, usize)> = Vec::new();
    let mut fi: usize = 0;
    while fi < faces.len()
        invariant
            fi <= faces@.len(),
            fv == views(faces@),
            result@ == non_simple_upto(fv, fi as int),
        decreases faces@.len() - fi,
    {
        let face = &faces[fi];
        let ghost wires = wires_of(*face);
        let mut wi: usize = 0;
        while wi < face.boundaries.len()
            invariant
                fi < faces@.len(),
                *face == faces@[fi as int],
                wires == wires_of(*face),
                wi <= wires.len(),
                fv == views(faces@),
                result@ == non_simple_upto(fv, fi as int) + face_non_simple_upto(fi as int, wires, wi as int),
            decreases wires.len() - wi,
        {
            let simple = is_simple(&face.boundaries[wi]);
            proof {
                let g = |w: int|
                    if is_simple_wire(wires[w]) {
                        Seq::<(usize, usize)>::empty()
                    } else {
                        seq![(fi as usize, w as usize)]
                    };
                lemma_flatten_new_step(wi as nat, g);
            }
            if !simple {
                result.push((fi, wi));
            }
            proof {
                let pre = non_simple_upto(fv, fi as int) + face_non_simple_upto(fi as int, wires, wi as int);
                if simple {
                    assert(result@ =~= pre + Seq::<(usize, usize)>::empty());
                } else {
                    assert(result@ =~= pre + seq![(fi, wi)]);
                }
            }
            wi = wi + 1;
        }
        proof {
            let g = |f: int| face_non_simple_upto(f, fv[f].wires, fv[f].wires.len() as int);
            lemma_flatten_new_step(fi as nat, g);
        }
        fi = fi + 1;
    }
    result
}

} // verus!
