//! Welding a shell's edges: restoring the two-reference rule of a closed
//! shell (an edge that more than two faces reference keeps its first two
//! uses, and every later use moves onto a fresh edge between the same
//! vertices), merging open edges that lie on one another, and tracking the
//! progress of assembly over the weld levels.
use vstd::prelude::*;
use crate::topology::{
    EdgeUse, FaceTopo, FaceView, HalfEdgeRecord, views, wires_of, half_edge_table, table_upto, face_records,
    face_records_upto, wire_records, use_count, edge_ids, build_half_edge_table, lemma_flatten_new_step,
    diagnose_open_edges, validate_euler_characteristic, euler_chi,
};
use crate::open_loops::{is_closed_chain, closed_chain, lemma_use_count_pos};
use crate::assembly::{wire_offset, lemma_table_upto_mono, lemma_flatten_mono_wires, apply_pairings, rebuilt_id, rebuilt_wires, rebuilt_before, new_wires, replaced_wires};
use crate::face_rebuild::{rebuild_face, rebuilt_face, rebuild_cost, gaps_view};
use crate::id::{IdSequence, next_sequential_id, successor_n};
use crate::text::{decimal, push_decimal};
use crate::diagnostics::BooleanStageError;

verus! {

/// Some use of the face lies on edge `e`.
pub open spec fn face_uses_edge(face: FaceView, e: u64) -> bool {
    exists|w: int, k: int| 0 <= w < face.wires.len() && 0 <= k < face.wires[w].len() && #[trigger] face.wires[w][k].edge == e
}

/// How many of the first `n` faces use edge `e`.
pub open spec fn faces_using(fv: Seq<FaceView>, e: u64, n: int) -> nat
    decreases n,
{
    if n <= 0 {
        0
    } else {
        faces_using(fv, e, n - 1) + if face_uses_edge(fv[n - 1], e) {
            1nat
        } else {
            0nat
        }
    }
}

/// More than two faces use edge `e`.
pub open spec fn overcounted(fv: Seq<FaceView>, e: u64) -> bool {
    faces_using(fv, e, fv.len() as int) > 2
}

/// Use `i` of the half-edge table is an excess reference: its edge is
/// overcounted and two earlier uses lie on it.
pub open spec fn is_excess(fv: Seq<FaceView>, i: int) -> bool {
    let t = half_edge_table(fv);
    overcounted(fv, t[i].edge_use.edge) && use_count(t.take(i), t[i].edge_use.edge) >= 2
}

/// How many of the first `n` uses of the table are excess references.
pub open spec fn excess_before(fv: Seq<FaceView>, n: int) -> nat
    decreases n,
{
    if n <= 0 {
        0
    } else {
        excess_before(fv, n - 1) + if is_excess(fv, n - 1) {
            1nat
        } else {
            0nat
        }
    }
}

/// Some use of face `f` is an excess reference.
pub open spec fn face_has_excess(fv: Seq<FaceView>, f: int) -> bool {
    exists|w: int, e: int|
        0 <= w < fv[f].wires.len() && 0 <= e < fv[f].wires[w].len() && #[trigger] is_excess(fv, wire_offset(fv, f, w) + e)
}

/// Face `f` is made anew: it has an excess reference and all its wires are
/// closed chains.
pub open spec fn is_recut(fv: Seq<FaceView>, f: int) -> bool {
    face_has_excess(fv, f) && forall|w: int| 0 <= w < fv[f].wires.len() ==> is_closed_chain(#[trigger] fv[f].wires[w])
}

/// How many of the first `n` faces are made anew.
pub open spec fn recut_before(fv: Seq<FaceView>, n: int) -> nat
    decreases n,
{
    if n <= 0 {
        0
    } else {
        recut_before(fv, n - 1) + if is_recut(fv, n - 1) {
            1nat
        } else {
            0nat
        }
    }
}

/// Use `i` of the table (of face `f`) after the repair: an excess reference
/// lies on a fresh edge with the same ends and direction, whose identity is
/// the sequence's next after the earlier fresh edges and new faces.
pub open spec fn repaired_use(fv: Seq<FaceView>, seq0: u64, f: int, i: int) -> EdgeUse {
    let u = half_edge_table(fv)[i].edge_use;
    if is_excess(fv, i) {
        EdgeUse { edge: successor_n(seq0, excess_before(fv, i) + recut_before(fv, f)), ..u }
    } else {
        u
    }
}

/// The wires of face `f` with every use repaired.
pub open spec fn repaired_wires(fv: Seq<FaceView>, seq0: u64, f: int) -> Seq<Seq<EdgeUse>> {
    Seq::new(
        fv[f].wires.len(),
        |w: int| Seq::new(fv[f].wires[w].len(), |e: int| repaired_use(fv, seq0, f, wire_offset(fv, f, w) + e)),
    )
}

/// The wires face `f` ends up with.
pub open spec fn recut_wires(fv: Seq<FaceView>, seq0: u64, f: int) -> Seq<Seq<EdgeUse>> {
    if is_recut(fv, f) {
        repaired_wires(fv, seq0, f)
    } else {
        fv[f].wires
    }
}

/// The identity face `f` ends up with: when made anew, the sequence's next
/// after the fresh edges of its own uses.
pub open spec fn recut_id(fv: Seq<FaceView>, seq0: u64, f: int) -> u64 {
    if is_recut(fv, f) {
        successor_n(seq0, excess_before(fv, table_upto(fv, f + 1).len() as int) + recut_before(fv, f))
    } else {
        fv[f].id
    }
}

/// Whether some use of the face lies on edge `e`.
fn face_has_edge(face: &FaceTopo, e: u64) -> (r: bool)
    ensures
        r == face_uses_edge(face@, e),
{
    let ghost wires = wires_of(*face);
    let mut wi: usize = 0;
    while wi < face.boundaries.len()
        invariant
            wires == wires_of(*face),
            wi <= wires.len(),
            forall|w: int, k: int| 0 <= w < wi && 0 <= k < wires[w].len() ==> #[trigger] wires[w][k].edge != e,
        decreases wires.len() - wi,
    {
        let wire = &face.boundaries[wi];
        assert(wire@ == wires[wi as int]);
        let mut k: usize = 0;
        while k < wire.len()
            invariant
                wires == wires_of(*face),
                wi < wires.len(),
                wire@ == wires[wi as int],
                k <= wire@.len(),
                forall|j: int| 0 <= j < k ==> wire@[j].edge != e,
            decreases wire@.len() - k,
        {
            if wire[k].edge == e {
                assert(face@.wires == wires);
                assert(face@.wires[wi as int][k as int].edge == e);
                return true;
            }
            k = k + 1;
        }
        wi = wi + 1;
    }
    false
}

/// How many faces use edge `e`.
fn count_faces_using(faces: &[FaceTopo], e: u64) -> (r: usize)
    ensures
        r == faces_using(views(faces@), e, faces@.len() as int),
{
    let ghost fv = views(faces@);
    let mut c: usize = 0;
    let mut i: usize = 0;
    while i < faces.len()
        invariant
            fv == views(faces@),
            i <= faces@.len(),
            c == faces_using(fv, e, i as int),
            c <= i,
        decreases faces@.len() - i,
    {
        assert(fv[i as int] == faces@[i as int]@);
        if face_has_edge(&faces[i], e) {
            c = c + 1;
        }
        i = i + 1;
    }
    c
}

/// How many of the first `k` records lie on edge `e`.
fn uses_before(table: &Vec<HalfEdgeRecord>, k: usize, e: u64) -> (r: usize)
    requires
        k <= table@.len(),
    ensures
        r == use_count(table@.take(k as int), e),
{
    let mut c: usize = 0;
    let mut i: usize = 0;
    while i < k
        invariant
            k <= table@.len(),
            i <= k,
            c == use_count(table@.take(i as int), e),
            c <= i,
        decreases k - i,
    {
        assert(table@.take(i + 1).drop_last() =~= table@.take(i as int));
        if table[i].edge_use.edge == e {
            c = c + 1;
        }
        i = i + 1;
    }
    c
}

/// Restores the two-reference rule after welding. An edge used by more than
/// two faces (each face counted once) keeps its first two uses in face, wire
/// and use order; every later use moves onto a fresh edge with the same ends
/// and direction, whose identity is the next of the sequence. A face with
/// such a use whose wires are all closed chains becomes a new face with the
/// next identity after its uses' fresh edges; any other face stays as it was
/// (see `recut_wires`, `recut_id`).
pub fn fix_overcounted_edges(faces: &[FaceTopo], seq: &mut IdSequence) -> (r: Vec<FaceTopo>)
    ensures
        r@.len() == faces@.len(),
        forall|f: int|
            0 <= f < faces@.len() ==> (#[trigger] r@[f]).id == recut_id(views(faces@), old(seq).value(), f) && r@[f]@.wires
                == recut_wires(views(faces@), old(seq).value(), f),
        final(seq).value() == successor_n(
            old(seq).value(),
            excess_before(views(faces@), half_edge_table(views(faces@)).len() as int) + recut_before(
                views(faces@),
                faces@.len() as int,
            ),
        ),
        (forall|e: u64| !#[trigger] overcounted(views(faces@), e)) ==> views(r@) == views(faces@) && final(seq).value()
            == old(seq).value(),
{
    let ghost fv = views(faces@);
    let ghost seq0 = seq.value();
    let table = build_half_edge_table(faces);
    let ghost t = table@;
    let mut out: Vec<FaceTopo> = Vec::new();
    let mut k: usize = 0;
    let mut fi: usize = 0;
    proof {
        lemma_table_upto_mono(fv, 0, fv.len() as int);
    }
    while fi < faces.len()
        invariant
            fi <= faces@.len(),
            fv == views(faces@),
            t == half_edge_table(fv),
            table@ == t,
            seq0 == old(seq).value(),
            k == table_upto(fv, fi as int).len(),
            out@.len() == fi,
            forall|f: int|
                0 <= f < fi ==> (#[trigger] out@[f]).id == recut_id(fv, seq0, f) && out@[f]@.wires == recut_wires(fv, seq0, f),
            seq.value() == successor_n(seq0, excess_before(fv, k as int) + recut_before(fv, fi as int)),
        decreases faces@.len() - fi,
    {
        let face = &faces[fi];
        let ghost wires = wires_of(*face);
        assert(fv[fi as int].wires == wires);
        proof {
            lemma_table_upto_mono(fv, fi + 1, fv.len() as int);
            let g = |x: int| face_records(x, fv[x]);
            lemma_flatten_new_step(fi as nat, g);
        }
        let ghost face_start = k as int;
        let mut nws: Vec<Vec<EdgeUse>> = Vec::new();
        let mut all_closed = true;
        let mut any = false;
        let mut wi: usize = 0;
        while wi < face.boundaries.len()
            invariant
                fi < faces@.len(),
                fv == views(faces@),
                *face == faces@[fi as int],
                wires == wires_of(*face),
                fv[fi as int].wires == wires,
                t == half_edge_table(fv),
                table@ == t,
                seq0 == old(seq).value(),
                face_start == table_upto(fv, fi as int).len(),
                table_upto(fv, fi as int).len() + face_records_upto(fi as int, wires, wires.len() as int).len() <= t.len(),
                wi <= wires.len(),
                k == wire_offset(fv, fi as int, wi as int),
                nws@.len() == wi,
                forall|w: int| 0 <= w < wi ==> (#[trigger] nws@[w])@ == repaired_wires(fv, seq0, fi as int)[w],
                all_closed == forall|w: int| 0 <= w < wi ==> is_closed_chain(#[trigger] wires[w]),
                any == exists|w: int, e: int|
                    0 <= w < wi && 0 <= e < wires[w].len() && #[trigger] is_excess(fv, wire_offset(fv, fi as int, w) + e),
                seq.value() == successor_n(seq0, excess_before(fv, k as int) + recut_before(fv, fi as int)),
            decreases wires.len() - wi,
        {
            let wire = &face.boundaries[wi];
            assert(wire@ == wires[wi as int]);
            proof {
                let g = |w: int| wire_records(fi as int, w, wires[w]);
                lemma_flatten_new_step(wi as nat, g);
                lemma_flatten_mono_wires(fi as int, wires, wi as int + 1, wires.len() as int);
            }
            let ghost target = repaired_wires(fv, seq0, fi as int)[wi as int];
            let mut nw: Vec<EdgeUse> = Vec::new();
            let mut ei: usize = 0;
            while ei < wire.len()
                invariant
                    fv == views(faces@),
                    t == half_edge_table(fv),
                    table@ == t,
                    seq0 == old(seq).value(),
                    fi < faces@.len(),
                    wi < wires.len(),
                    fv[fi as int].wires == wires,
                    wire@ == wires[wi as int],
                    target == repaired_wires(fv, seq0, fi as int)[wi as int],
                    target.len() == wire@.len(),
                    wire_offset(fv, fi as int, wi as int) + wire@.len() <= t.len(),
                    ei <= wire@.len(),
                    k == wire_offset(fv, fi as int, wi as int) + ei,
                    nw@ == target.take(ei as int),
                    any == ((exists|w: int, e: int|
                        0 <= w < wi && 0 <= e < wires[w].len() && #[trigger] is_excess(fv, wire_offset(fv, fi as int, w) + e))
                        || exists|e: int| 0 <= e < ei && #[trigger] is_excess(fv, wire_offset(fv, fi as int, wi as int) + e)),
                    seq.value() == successor_n(seq0, excess_before(fv, k as int) + recut_before(fv, fi as int)),
                decreases wire@.len() - ei,
            {
                let u = table[k].edge_use;
                let faces_on_edge = count_faces_using(faces, u.edge);
                let earlier = uses_before(&table, k, u.edge);
                let excess = faces_on_edge > 2 && earlier >= 2;
                assert(excess == is_excess(fv, k as int));
                assert(target[ei as int] == repaired_use(fv, seq0, fi as int, k as int));
                if excess {
                    let id = next_sequential_id(seq);
                    nw.push(EdgeUse { edge: id, ..u });
                    any = true;
                } else {
                    nw.push(u);
                }
                assert(target.take(ei + 1) =~= target.take(ei as int).push(target[ei as int]));
                assert(k < table.len());
                k = k + 1;
                ei = ei + 1;
            }
            assert(target.take(wire@.len() as int) =~= target);
            proof {
                assert(any == exists|w: int, e: int|
                    0 <= w < wi + 1 && 0 <= e < wires[w].len() && #[trigger] is_excess(fv, wire_offset(fv, fi as int, w) + e)) by {
                    if any {
                        if exists|e: int| 0 <= e < ei && #[trigger] is_excess(fv, wire_offset(fv, fi as int, wi as int) + e) {
                            let e = choose|e: int| 0 <= e < ei && #[trigger] is_excess(fv, wire_offset(fv, fi as int, wi as int) + e);
                            assert(is_excess(fv, wire_offset(fv, fi as int, wi as int) + e));
                        }
                    }
                }
            }
            let closed = closed_chain(wire);
            all_closed = all_closed && closed;
            nws.push(nw);
            proof {
                assert(k == wire_offset(fv, fi as int, wi + 1));
                assert forall|w: int| 0 <= w < wi + 1 implies (#[trigger] nws@[w])@ == repaired_wires(fv, seq0, fi as int)[w] by {}
            }
            wi = wi + 1;
        }
        let ghost nwv = repaired_wires(fv, seq0, fi as int);
        assert(any == face_has_excess(fv, fi as int));
        assert(k == table_upto(fv, fi + 1).len());
        let new_face = if any && all_closed {
            let id = next_sequential_id(seq);
            let f2 = FaceTopo { id, boundaries: nws };
            assert(f2@.wires =~= nwv);
            f2
        } else {
            face.clone()
        };
        out.push(new_face);
        proof {
            assert(is_recut(fv, fi as int) == (any && all_closed));
            assert forall|f: int|
                0 <= f < fi + 1 implies (#[trigger] out@[f]).id == recut_id(fv, seq0, f) && out@[f]@.wires == recut_wires(fv, seq0, f) by {
            }
        }
        fi = fi + 1;
    }
    proof {
        assert(t == table_upto(fv, fv.len() as int));
        if forall|e: u64| !#[trigger] overcounted(fv, e) {
            lemma_nothing_recut(fv, fv.len() as int);
            lemma_no_excess(fv, t.len() as int);
            assert forall|f: int| 0 <= f < fv.len() implies #[trigger] views(out@)[f] == fv[f] by {
                assert(!is_recut(fv, f)) by {
                    if face_has_excess(fv, f) {
                        let (w, e) = choose|w: int, e: int|
                            0 <= w < fv[f].wires.len() && 0 <= e < fv[f].wires[w].len() && #[trigger] is_excess(
                                fv,
                                wire_offset(fv, f, w) + e,
                            );
                        assert(!overcounted(fv, t[wire_offset(fv, f, w) + e].edge_use.edge));
                    }
                }
            }
            assert(views(out@) =~= fv);
        }
    }
    out
}

proof fn lemma_no_excess(fv: Seq<FaceView>, n: int)
    requires
        forall|e: u64| !#[trigger] overcounted(fv, e),
    ensures
        excess_before(fv, n) == 0,
    decreases n,
{
    if n > 0 {
        lemma_no_excess(fv, n - 1);
        assert(!overcounted(fv, half_edge_table(fv)[n - 1].edge_use.edge));
    }
}

proof fn lemma_nothing_recut(fv: Seq<FaceView>, n: int)
    requires
        forall|e: u64| !#[trigger] overcounted(fv, e),
    ensures
        recut_before(fv, n) == 0,
    decreases n,
{
    if n > 0 {
        lemma_nothing_recut(fv, n - 1);
        if face_has_excess(fv, n - 1) {
            let (w, e) = choose|w: int, e: int|
                0 <= w < fv[n - 1].wires.len() && 0 <= e < fv[n - 1].wires[w].len() && #[trigger] is_excess(
                    fv,
                    wire_offset(fv, n - 1, w) + e,
                );
            assert(!overcounted(fv, half_edge_table(fv)[wire_offset(fv, n - 1, w) + e].edge_use.edge));
        }
    }
}

/// How many of the first `n` uses of the table lie on edge `e` and keep it.
pub open spec fn kept_uses(fv: Seq<FaceView>, e: u64, n: int) -> nat
    decreases n,
{
    if n <= 0 {
        0
    } else {
        kept_uses(fv, e, n - 1) + if half_edge_table(fv)[n - 1].edge_use.edge == e && !is_excess(fv, n - 1) {
            1nat
        } else {
            0nat
        }
    }
}

proof fn lemma_use_count_add(a: Seq<HalfEdgeRecord>, b: Seq<HalfEdgeRecord>, e: u64)
    ensures
        use_count(a + b, e) == use_count(a, e) + use_count(b, e),
    decreases b.len(),
{
    if b.len() > 0 {
        assert((a + b).drop_last() =~= a + b.drop_last());
        lemma_use_count_add(a, b.drop_last(), e);
    } else {
        assert(a + b =~= a);
    }
}

proof fn lemma_face_records_use(f: int, wires: Seq<Seq<EdgeUse>>, w: int, k: int, n: int)
    requires
        0 <= w < n <= wires.len(),
        0 <= k < wires[w].len(),
    ensures
        use_count(face_records_upto(f, wires, n), wires[w][k].edge) >= 1,
    decreases n,
{
    let g = |x: int| wire_records(f, x, wires[x]);
    lemma_flatten_new_step((n - 1) as nat, g);
    let e = wires[w][k].edge;
    lemma_use_count_add(face_records_upto(f, wires, n - 1), wire_records(f, n - 1, wires[n - 1]), e);
    if w == n - 1 {
        lemma_use_count_pos(wire_records(f, w, wires[w]), k);
    } else {
        lemma_face_records_use(f, wires, w, k, n - 1);
    }
}

proof fn lemma_faces_using_bound(fv: Seq<FaceView>, e: u64, n: int)
    requires
        0 <= n <= fv.len(),
    ensures
        use_count(table_upto(fv, n), e) >= faces_using(fv, e, n),
    decreases n,
{
    if n > 0 {
        lemma_faces_using_bound(fv, e, n - 1);
        let g = |x: int| face_records(x, fv[x]);
        lemma_flatten_new_step((n - 1) as nat, g);
        lemma_use_count_add(table_upto(fv, n - 1), face_records(n - 1, fv[n - 1]), e);
        if face_uses_edge(fv[n - 1], e) {
            let (w, k) = choose|w: int, k: int|
                0 <= w < fv[n - 1].wires.len() && 0 <= k < fv[n - 1].wires[w].len() && #[trigger] fv[n - 1].wires[w][k].edge == e;
            lemma_face_records_use(n - 1, fv[n - 1].wires, w, k, fv[n - 1].wires.len() as int);
        }
    }
}

proof fn lemma_kept_prefix(fv: Seq<FaceView>, e: u64, n: int)
    requires
        0 <= n <= half_edge_table(fv).len(),
        overcounted(fv, e),
    ensures
        kept_uses(fv, e, n) == if use_count(half_edge_table(fv).take(n), e) < 2 {
            use_count(half_edge_table(fv).take(n), e)
        } else {
            2
        },
    decreases n,
{
    let t = half_edge_table(fv);
    if n > 0 {
        lemma_kept_prefix(fv, e, n - 1);
        assert(t.take(n).drop_last() =~= t.take(n - 1));
    } else {
        assert(t.take(0) =~= Seq::<HalfEdgeRecord>::empty());
    }
}

/// An edge that more than two faces use keeps exactly two of its uses (its
/// first two); any other edge keeps all its uses.
pub proof fn overcounted_edge_keeps_two_uses(fv: Seq<FaceView>, e: u64)
    ensures
        overcounted(fv, e) ==> kept_uses(fv, e, half_edge_table(fv).len() as int) == 2,
        !overcounted(fv, e) ==> kept_uses(fv, e, half_edge_table(fv).len() as int) == use_count(half_edge_table(fv), e),
{
    let t = half_edge_table(fv);
    if overcounted(fv, e) {
        lemma_faces_using_bound(fv, e, fv.len() as int);
        lemma_kept_prefix(fv, e, t.len() as int);
        assert(t.take(t.len() as int) =~= t);
    } else {
        assert forall|n: int| 0 <= n <= t.len() implies #[trigger] kept_uses(fv, e, n) == use_count(t.take(n), e) by {
            lemma_kept_all(fv, e, n);
        }
        assert(t.take(t.len() as int) =~= t);
    }
}

proof fn lemma_kept_all(fv: Seq<FaceView>, e: u64, n: int)
    requires
        0 <= n <= half_edge_table(fv).len(),
        !overcounted(fv, e),
    ensures
        kept_uses(fv, e, n) == use_count(half_edge_table(fv).take(n), e),
    decreases n,
{
    let t = half_edge_table(fv);
    if n > 0 {
        lemma_kept_all(fv, e, n - 1);
        assert(t.take(n).drop_last() =~= t.take(n - 1));
    } else {
        assert(t.take(0) =~= Seq::<HalfEdgeRecord>::empty());
    }
}

/// Edge `e` sits at place `k >= 1` of group `g`: it merges into the group's
/// first edge.
pub open spec fn merges_at(groups: Seq<Seq<u64>>, e: u64, g: int, k: int) -> bool {
    0 <= g < groups.len() && 1 <= k < groups[g].len() && groups[g][k] == e
}

/// The first use of edge `e` in the table.
pub open spec fn first_use_of(t: Seq<HalfEdgeRecord>, e: u64) -> int {
    choose|a: int| 0 <= a < t.len() && t[a].edge_use.edge == e && forall|b: int| 0 <= b < a ==> t[b].edge_use.edge != e
}

/// What each use of the table is replaced with when the groups merge: a use
/// of an edge at place `k >= 1` of group `g` takes the group's first edge
/// (as its first use has it), in the direction that `same_dir[g][k]` gives;
/// any other use stays.
pub open spec fn merge_rep(t: Seq<HalfEdgeRecord>, groups: Seq<Seq<u64>>, same_dir: Seq<Seq<bool>>) -> Seq<Option<(usize, bool)>> {
    Seq::new(
        t.len(),
        |i: int|
            if exists|g: int, k: int| #[trigger] merges_at(groups, t[i].edge_use.edge, g, k) {
                let (g, k) = choose|g: int, k: int| #[trigger] merges_at(groups, t[i].edge_use.edge, g, k);
                Some((first_use_of(t, groups[g][0]) as usize, same_dir[g][k]))
            } else {
                None
            },
    )
}

/// How many edges the first `n` groups merge away.
pub open spec fn merged_count(groups: Seq<Seq<u64>>, n: int) -> nat
    decreases n,
{
    if n <= 0 {
        0
    } else {
        merged_count(groups, n - 1) + (groups[n - 1].len() - 1) as nat
    }
}

/// How many edges the first `n` groups hold.
pub open spec fn group_sizes(groups: Seq<Seq<u64>>, n: int) -> nat
    decreases n,
{
    if n <= 0 {
        0
    } else {
        group_sizes(groups, n - 1) + groups[n - 1].len()
    }
}

/// The groups are fit to merge: every group has a first edge and a flag per
/// edge, every listed edge is open (used exactly once in the table), and no
/// edge is listed twice.
pub open spec fn valid_groups(t: Seq<HalfEdgeRecord>, groups: Seq<Seq<u64>>, same_dir: Seq<Seq<bool>>) -> bool {
    &&& same_dir.len() == groups.len()
    &&& forall|g: int| 0 <= g < groups.len() ==> (#[trigger] groups[g]).len() >= 1 && same_dir[g].len() == groups[g].len()
    &&& forall|g: int, k: int| 0 <= g < groups.len() && 0 <= k < groups[g].len() ==> edge_ids(t).contains(#[trigger] groups[g][k])
    &&& forall|g: int, k: int| 0 <= g < groups.len() && 0 <= k < groups[g].len() ==> use_count(t, #[trigger] groups[g][k]) == 1
    &&& forall|g1: int, k1: int, g2: int, k2: int|
        0 <= g1 < groups.len() && 0 <= k1 < groups[g1].len() && 0 <= g2 < groups.len() && 0 <= k2 < groups[g2].len() && (g1
            != g2 || k1 != k2) ==> #[trigger] groups[g1][k1] != #[trigger] groups[g2][k2]
}

/// The groups as sequences.
pub open spec fn id_groups_view(groups: Seq<Vec<u64>>) -> Seq<Seq<u64>> {
    groups.map_values(|g: Vec<u64>| g@)
}

/// The flags as sequences.
pub open spec fn flag_groups_view(flags: Seq<Vec<bool>>) -> Seq<Seq<bool>> {
    flags.map_values(|g: Vec<bool>| g@)
}

/// The first use of edge `e`, which some use has.
fn first_use_index(table: &Vec<HalfEdgeRecord>, e: u64) -> (r: usize)
    requires
        exists|a: int| 0 <= a < table@.len() && #[trigger] table@[a].edge_use.edge == e,
    ensures
        r == first_use_of(table@, e),
        r < table@.len(),
{
    let ghost t = table@;
    let mut a: usize = 0;
    while a < table.len()
        invariant
            t == table@,
            a <= t.len(),
            forall|b: int| 0 <= b < a ==> t[b].edge_use.edge != e,
            exists|x: int| 0 <= x < t.len() && #[trigger] t[x].edge_use.edge == e,
        decreases t.len() - a,
    {
        if table[a].edge_use.edge == e {
            proof {
                let c = first_use_of(t, e);
                assert(0 <= c < t.len() && t[c].edge_use.edge == e && forall|b: int| 0 <= b < c ==> t[b].edge_use.edge != e);
                if c < a {
                } else if c > a {
                }
                assert(c == a);
            }
            return a;
        }
        a = a + 1;
    }
    proof {
        let x = choose|x: int| 0 <= x < t.len() && #[trigger] t[x].edge_use.edge == e;
        assert(t[x].edge_use.edge != e);
    }
    0
}

/// The place of edge `e` after the first in one of the groups.
fn merge_place(groups: &Vec<Vec<u64>>, e: u64) -> (r: Option<(usize, usize)>)
    ensures
        r matches Some((g, k)) ==> merges_at(id_groups_view(groups@), e, g as int, k as int),
        r is None ==> !exists|g: int, k: int| #[trigger] merges_at(id_groups_view(groups@), e, g, k),
{
    let ghost gv = id_groups_view(groups@);
    let mut g: usize = 0;
    while g < groups.len()
        invariant
            gv == id_groups_view(groups@),
            g <= gv.len(),
            forall|g2: int, k: int| 0 <= g2 < g && #[trigger] merges_at(gv, e, g2, k) ==> false,
        decreases gv.len() - g,
    {
        let grp = &groups[g];
        assert(grp@ == gv[g as int]);
        let mut k: usize = 1;
        while k < grp.len()
            invariant
                gv == id_groups_view(groups@),
                g < gv.len(),
                grp@ == gv[g as int],
                1 <= k,
                forall|k2: int| 1 <= k2 < k && k2 < grp@.len() ==> grp@[k2] != e,
            decreases grp@.len() - k,
        {
            if grp[k] == e {
                return Some((g, k));
            }
            k = k + 1;
        }
        proof {
            assert forall|g2: int, k2: int| 0 <= g2 < g + 1 && #[trigger] merges_at(gv, e, g2, k2) implies false by {
                if g2 == g as int {
                    assert(grp@[k2] == e);
                }
            }
        }
        g = g + 1;
    }
    None
}

/// What use `i` of the table is replaced with when the groups merge.
fn merge_entry(table: &Vec<HalfEdgeRecord>, groups: &Vec<Vec<u64>>, same_dir: &Vec<Vec<bool>>, i: usize) -> (r: Option<(usize, bool)>)
    requires
        i < table@.len(),
        valid_groups(table@, id_groups_view(groups@), flag_groups_view(same_dir@)),
    ensures
        r == merge_rep(table@, id_groups_view(groups@), flag_groups_view(same_dir@))[i as int],
        r matches Some((a, _)) ==> a < table@.len(),
{
    let ghost t = table@;
    let ghost gv = id_groups_view(groups@);
    let ghost sv = flag_groups_view(same_dir@);
    let e = table[i].edge_use.edge;
    match merge_place(groups, e) {
        Some((g, k)) => {
            assert(gv[g as int] == groups@[g as int]@);
            assert(sv[g as int] == same_dir@[g as int]@);
            let c = groups[g][0];
            proof {
                assert(gv[g as int][0] == c);
                assert(edge_ids(t).contains(c));
                lemma_edge_ids_witness(t, c);
            }
            let a = first_use_index(table, c);
            let d = same_dir[g][k];
            proof {
                assert(merges_at(gv, t[i as int].edge_use.edge, g as int, k as int));
                let (g2, k2) = choose|g2: int, k2: int| #[trigger] merges_at(gv, t[i as int].edge_use.edge, g2, k2);
                assert(gv[g2][k2] == gv[g as int][k as int]);
                assert(g2 == g && k2 == k);
            }
            Some((a, d))
        },
        None => None,
    }
}

/// Some entry before `j` lists edge `e` with one use.
spec fn listed_single(info: Seq<crate::topology::OpenEdgeInfo>, j: int, e: u64) -> bool {
    exists|k: int| 0 <= k < j && #[trigger] info[k].edge == e && info[k].face_count == 1
}

/// The open edges of the faces that may be force-merged: those used exactly
/// once, in increasing order.
pub fn single_use_edges(faces: &[FaceTopo]) -> (r: Vec<u64>)
    ensures
        forall|a: int, b: int| 0 <= a < b < r@.len() ==> r@[a] < r@[b],
        forall|e: u64|
            r@.contains(e) <==> edge_ids(half_edge_table(views(faces@))).contains(e) && use_count(
                half_edge_table(views(faces@)),
                e,
            ) == 1,
{
    let ghost t = half_edge_table(views(faces@));
    let info = diagnose_open_edges(faces);
    let mut out: Vec<u64> = Vec::new();
    let mut j: usize = 0;
    while j < info.len()
        invariant
            j <= info@.len(),
            forall|a: int, b: int| 0 <= a < b < info@.len() ==> info@[a].edge < info@[b].edge,
            forall|a: int| 0 <= a < info@.len() ==> crate::topology::is_open_entry(t, #[trigger] info@[a]),
            forall|a: int, b: int| 0 <= a < b < out@.len() ==> out@[a] < out@[b],
            forall|a: int| 0 <= a < out@.len() ==> listed_single(info@, j as int, #[trigger] out@[a]),
            forall|k: int| 0 <= k < j && info@[k].face_count == 1 ==> out@.contains(#[trigger] info@[k].edge),
        decreases info@.len() - j,
    {
        if info[j].face_count == 1 {
            proof {
                assert forall|a: int| 0 <= a < out@.len() implies out@[a] < info@[j as int].edge by {
                    assert(listed_single(info@, j as int, out@[a]));
                    let k = choose|k: int| 0 <= k < j && #[trigger] info@[k].edge == out@[a] && info@[k].face_count == 1;
                }
            }
            let ghost old_out = out@;
            out.push(info[j].edge);
            proof {
                assert forall|a: int| 0 <= a < out@.len() implies listed_single(info@, j + 1, #[trigger] out@[a]) by {
                    if a < old_out.len() {
                        assert(listed_single(info@, j as int, old_out[a]));
                        let k = choose|k: int| 0 <= k < j && #[trigger] info@[k].edge == old_out[a] && info@[k].face_count == 1;
                        assert(0 <= k < j + 1 && info@[k].edge == out@[a] && info@[k].face_count == 1);
                    } else {
                        assert(0 <= j < j + 1 && info@[j as int].edge == out@[a] && info@[j as int].face_count == 1);
                        assert(info@[j as int].edge == out@[a]);
                    }
                }
                assert forall|k: int| 0 <= k < j + 1 && info@[k].face_count == 1 implies out@.contains(#[trigger] info@[k].edge) by {
                    if k < j {
                        assert(old_out.contains(info@[k].edge));
                        let a = choose|a: int| 0 <= a < old_out.len() && old_out[a] == info@[k].edge;
                        assert(out@[a] == info@[k].edge);
                    } else {
                        assert(out@[old_out.len() as int] == info@[k].edge);
                    }
                }
            }
        }
        j = j + 1;
    }
    proof {
        assert forall|e: u64| out@.contains(e) <==> edge_ids(t).contains(e) && use_count(t, e) == 1 by {
            if out@.contains(e) {
                let a = choose|a: int| 0 <= a < out@.len() && out@[a] == e;
                assert(listed_single(info@, j as int, out@[a]));
                let k = choose|k: int| 0 <= k < j && #[trigger] info@[k].edge == out@[a] && info@[k].face_count == 1;
                assert(crate::topology::is_open_entry(t, info@[k]));
            }
            if edge_ids(t).contains(e) && use_count(t, e) == 1 {
                let a = choose|a: int| 0 <= a < info@.len() && #[trigger] info@[a].edge == e;
                assert(crate::topology::is_open_entry(t, info@[a]));
            }
        }
    }
    out
}

/// Merges open edges that lie on one another. Each group lists edges of the
/// faces used exactly once (see `single_use_edges`), found at the same place; the first edge of
/// a group stays and every other one merges into it: each of its uses takes
/// the first edge, in its own direction when the flag for it in `same_dir`
/// agrees with the use's direction flag, against it otherwise. A face with
/// such a use whose wires all close becomes a new face with the next
/// identity of the sequence (see `apply_pairings`). Returns the faces and
/// how many edges merged away.
pub fn merge_open_edges(
    faces: &[FaceTopo],
    groups: &Vec<Vec<u64>>,
    same_dir: &Vec<Vec<bool>>,
    seq: &mut IdSequence,
) -> (r: (Vec<FaceTopo>, usize))
    requires
        valid_groups(half_edge_table(views(faces@)), id_groups_view(groups@), flag_groups_view(same_dir@)),
        group_sizes(id_groups_view(groups@), groups@.len() as int) <= usize::MAX,
    ensures
        ({
            let fv = views(faces@);
            let rep = merge_rep(half_edge_table(fv), id_groups_view(groups@), flag_groups_view(same_dir@));
            &&& r.0@.len() == faces@.len()
            &&& forall|f: int|
                0 <= f < faces@.len() ==> (#[trigger] r.0@[f]).id == rebuilt_id(fv, rep, f, old(seq).value()) && r.0@[f]@.wires
                    == rebuilt_wires(fv, rep, f)
            &&& final(seq).value() == successor_n(old(seq).value(), rebuilt_before(fv, rep, faces@.len() as int))
            &&& r.1 == merged_count(id_groups_view(groups@), groups@.len() as int)
        }),
{
    let ghost fv = views(faces@);
    let ghost gv = id_groups_view(groups@);
    let ghost sv = flag_groups_view(same_dir@);
    let table = build_half_edge_table(faces);
    let ghost t = table@;
    let ghost target = merge_rep(t, gv, sv);
    proof {
        assert(valid_groups(t, gv, sv)) by {
            assert forall|g: int| 0 <= g < gv.len() implies (#[trigger] gv[g]).len() >= 1 && sv[g].len() == gv[g].len() by {
                assert(gv[g] == groups@[g]@ && sv[g] == same_dir@[g]@);
            }
            assert forall|g: int, k: int| 0 <= g < gv.len() && 0 <= k < gv[g].len() implies edge_ids(t).contains(#[trigger] gv[g][k]) by {
                assert(gv[g] == groups@[g]@);
            }
            assert forall|g1: int, k1: int, g2: int, k2: int|
                0 <= g1 < gv.len() && 0 <= k1 < gv[g1].len() && 0 <= g2 < gv.len() && 0 <= k2 < gv[g2].len() && (g1 != g2 || k1
                    != k2) implies #[trigger] gv[g1][k1] != #[trigger] gv[g2][k2] by {
                assert(gv[g1] == groups@[g1]@ && gv[g2] == groups@[g2]@);
            }
        }
    }
    let mut rep: Vec<Option<(usize, bool)>> = Vec::new();
    let mut i: usize = 0;
    while i < table.len()
        invariant
            t == table@,
            gv == id_groups_view(groups@),
            sv == flag_groups_view(same_dir@),
            target == merge_rep(t, gv, sv),
            valid_groups(t, gv, sv),
            i <= t.len(),
            rep@ == target.take(i as int),
            forall|x: int| 0 <= x < i ==> (#[trigger] rep@[x] matches Some((a, _)) ==> a < t.len()),
        decreases t.len() - i,
    {
        let entry = merge_entry(&table, groups, same_dir, i);
        rep.push(entry);
        assert(target.take(i + 1) =~= target.take(i as int).push(target[i as int]));
        i = i + 1;
    }
    assert(target.take(t.len() as int) =~= target);
    let faces_out = apply_pairings(faces, &rep, seq);
    let mut count: usize = 0;
    let mut g: usize = 0;
    while g < groups.len()
        invariant
            gv == id_groups_view(groups@),
            g <= gv.len(),
            forall|h: int| 0 <= h < gv.len() ==> (#[trigger] gv[h]).len() >= 1,
            count == merged_count(gv, g as int),
            merged_count(gv, g as int) <= group_sizes(gv, g as int),
            group_sizes(gv, gv.len() as int) <= usize::MAX,
        decreases gv.len() - g,
    {
        assert(gv[g as int] == groups@[g as int]@);
        proof {
            lemma_group_sizes_mono(gv, g + 1, gv.len() as int);
        }
        count = count + (groups[g].len() - 1);
        g = g + 1;
    }
    (faces_out, count)
}

proof fn lemma_group_sizes_mono(gv: Seq<Seq<u64>>, m: int, n: int)
    requires
        0 <= m <= n <= gv.len(),
    ensures
        group_sizes(gv, m) <= group_sizes(gv, n),
    decreases n - m,
{
    if m < n {
        lemma_group_sizes_mono(gv, m, n - 1);
    }
}

proof fn lemma_edge_ids_witness(t: Seq<HalfEdgeRecord>, e: u64)
    requires
        edge_ids(t).contains(e),
    ensures
        exists|a: int| 0 <= a < t.len() && #[trigger] t[a].edge_use.edge == e,
    decreases t.len(),
{
    if t.len() > 0 {
        if t.last().edge_use.edge == e {
            assert(t[t.len() - 1].edge_use.edge == e);
        } else {
            lemma_edge_ids_witness(t.drop_last(), e);
            let a = choose|a: int| 0 <= a < t.drop_last().len() && #[trigger] t.drop_last()[a].edge_use.edge == e;
            assert(t[a].edge_use.edge == e);
        }
    }
}

proof fn lemma_first_use_exists(t: Seq<HalfEdgeRecord>, e: u64, w: int)
    requires
        0 <= w < t.len(),
        t[w].edge_use.edge == e,
    ensures
        0 <= first_use_of(t, e) < t.len(),
        t[first_use_of(t, e)].edge_use.edge == e,
    decreases w,
{
    if exists|b: int| 0 <= b < w && t[b].edge_use.edge == e {
        let b = choose|b: int| 0 <= b < w && t[b].edge_use.edge == e;
        lemma_first_use_exists(t, e, b);
    } else {
        assert(0 <= w < t.len() && t[w].edge_use.edge == e && forall|b: int| 0 <= b < w ==> t[b].edge_use.edge != e);
    }
}

} // verus!

verus! {

/// The progress of shell assembly over the weld levels: the open edge count
/// after the last step, and the lowest positive count a level left, with
/// that level (`usize::MAX` and none before any).
pub struct WeldProgress {
    /// Open edges after the last step.
    pub last_open: usize,
    /// The fewest open edges a level left while some stayed open.
    pub best_open: usize,
    /// The level that left them.
    pub best_level: Option<usize>,
}

/// Uses `i` and `j` of the table join the same two vertices, either way round.
pub open spec fn same_ends(t: Seq<HalfEdgeRecord>, i: int, j: int) -> bool {
    let a = t[i].edge_use;
    let b = t[j].edge_use;
    (a.front == b.front && a.back == b.back) || (a.front == b.back && a.back == b.front)
}

/// Use `j` can be welded onto use `i`: they join the same two vertices, lie
/// in different faces, run along one curve (`agree[i][j]`, from sampling the
/// curves) and are different edges.
pub open spec fn weld_match(t: Seq<HalfEdgeRecord>, agree: Seq<Seq<bool>>, i: int, j: int) -> bool {
    &&& same_ends(t, i, j)
    &&& t[i].face_idx != t[j].face_idx
    &&& agree[i][j]
    &&& t[i].edge_use.edge != t[j].edge_use.edge
}

/// The matching state after trying uses `i + 1 .. j` against use `i`,
/// starting from `st`: which uses are matched, and for each welded edge the
/// use whose edge it becomes (a later weld of the same edge overrides an
/// earlier one).
pub open spec fn row_pass(
    t: Seq<HalfEdgeRecord>,
    agree: Seq<Seq<bool>>,
    st: (Seq<bool>, Map<u64, int>),
    i: int,
    j: int,
) -> (Seq<bool>, Map<u64, int>)
    decreases j - i,
{
    if j <= i + 1 {
        st
    } else {
        let s = row_pass(t, agree, st, i, j - 1);
        let k = j - 1;
        if !s.0[i] && !s.0[k] && weld_match(t, agree, i, k) {
            (s.0.update(k, true), s.1.insert(t[k].edge_use.edge, i))
        } else {
            s
        }
    }
}

/// The matching state after the first `i` uses have each been tried against
/// every later use.
pub open spec fn rows_pass(t: Seq<HalfEdgeRecord>, agree: Seq<Seq<bool>>, i: int) -> (Seq<bool>, Map<u64, int>)
    decreases i,
{
    if i <= 0 {
        (Seq::new(t.len(), |k: int| false), Map::empty())
    } else {
        row_pass(t, agree, rows_pass(t, agree, i - 1), i - 1, t.len() as int)
    }
}

/// For each welded edge, the use whose edge replaces it.
pub open spec fn weld_canon(t: Seq<HalfEdgeRecord>, agree: Seq<Seq<bool>>) -> Map<u64, int> {
    rows_pass(t, agree, t.len() as int).1
}

/// Uses `a` and `b` lie in the same wire.
pub open spec fn same_wire(t: Seq<HalfEdgeRecord>, a: int, b: int) -> bool {
    t[a].face_idx == t[b].face_idx && t[a].wire_idx == t[b].wire_idx
}

/// The edge that use `k`'s edge is welded onto.
pub open spec fn canon_edge(t: Seq<HalfEdgeRecord>, m: Map<u64, int>, k: int) -> u64 {
    t[m[t[k].edge_use.edge]].edge_use.edge
}

/// Use `k` takes its edge's replacement: its edge is welded, and no earlier
/// use of its wire was welded onto the same edge (a wire takes each
/// replacement once).
pub open spec fn claims(t: Seq<HalfEdgeRecord>, m: Map<u64, int>, k: int) -> bool {
    &&& m.contains_key(t[k].edge_use.edge)
    &&& forall|k2: int|
        0 <= k2 < k && same_wire(t, k2, k) && #[trigger] m.contains_key(t[k2].edge_use.edge) ==> canon_edge(t, m, k2)
            != canon_edge(t, m, k)
}

/// What each use is replaced with when coincident edges are welded: the use
/// of the edge it is welded onto, in the direction `same_dir[k][a]` says
/// (whether use `k` starts at the start of use `a`'s edge), when it claims
/// it.
pub open spec fn weld_rep(t: Seq<HalfEdgeRecord>, agree: Seq<Seq<bool>>, same_dir: Seq<Seq<bool>>) -> Seq<Option<(usize, bool)>> {
    let m = weld_canon(t, agree);
    Seq::new(
        t.len(),
        |k: int|
            if claims(t, m, k) {
                Some((m[t[k].edge_use.edge] as usize, same_dir[k][m[t[k].edge_use.edge]]))
            } else {
                None
            },
    )
}

/// The answers form an `n` by `n` table.
pub open spec fn square(n: int, m: Seq<Vec<bool>>) -> bool {
    &&& m.len() == n
    &&& forall|i: int| 0 <= i < n ==> (#[trigger] m[i])@.len() == n
}

/// The welded edges, entry by entry of the table.
fn weld_targets(table: &Vec<HalfEdgeRecord>, agree: &Vec<Vec<bool>>) -> (r: Vec<Option<usize>>)
    requires
        square(table@.len() as int, agree@),
    ensures
        r@.len() == table@.len(),
        forall|k: int|
            0 <= k < table@.len() ==> #[trigger] r@[k] == (if weld_canon(table@, flag_groups_view(agree@)).contains_key(
                table@[k].edge_use.edge,
            ) {
                Some(weld_canon(table@, flag_groups_view(agree@))[table@[k].edge_use.edge] as usize)
            } else {
                None
            }),
        forall|e: u64| #[trigger] weld_canon(table@, flag_groups_view(agree@)).contains_key(e) ==> 0 <= weld_canon(table@, flag_groups_view(agree@))[e] < table@.len(),
{
    let ghost t = table@;
    let ghost ag = flag_groups_view(agree@);
    let n = table.len();
    let mut matched: Vec<bool> = Vec::new();
    let mut canon_of: Vec<Option<usize>> = Vec::new();
    let mut z: usize = 0;
    while z < n
        invariant
            n == t.len(),
            z <= n,
            matched@ == Seq::new(z as nat, |k: int| false),
            canon_of@.len() == z,
            forall|k: int| 0 <= k < z ==> canon_of@[k] is None,
        decreases n - z,
    {
        matched.push(false);
        canon_of.push(None);
        z = z + 1;
    }
    let ghost mut m: Map<u64, int> = Map::empty();
    let mut i: usize = 0;
    while i < n
        invariant
            n == t.len(),
            t == table@,
            ag == flag_groups_view(agree@),
            square(n as int, agree@),
            i <= n,
            matched@ == rows_pass(t, ag, i as int).0,
            m == rows_pass(t, ag, i as int).1,
            canon_of@.len() == n,
            forall|k: int| 0 <= k < n ==> #[trigger] canon_of@[k] == (if m.contains_key(t[k].edge_use.edge) {
                Some(m[t[k].edge_use.edge] as usize)
            } else {
                None
            }),
            forall|e: u64| #[trigger] m.contains_key(e) ==> 0 <= m[e] < n,
        decreases n - i,
    {
        let ghost st = rows_pass(t, ag, i as int);
        assert(matched@.len() == n) by {
            lemma_rows_pass_len(t, ag, i as int);
        }
        let mut j: usize = i + 1;
        while j < n
            invariant
                n == t.len(),
                t == table@,
                ag == flag_groups_view(agree@),
                square(n as int, agree@),
                i < n,
                i + 1 <= j <= n,
                matched@ == row_pass(t, ag, st, i as int, j as int).0,
                m == row_pass(t, ag, st, i as int, j as int).1,
                matched@.len() == n,
                canon_of@.len() == n,
                forall|k: int| 0 <= k < n ==> #[trigger] canon_of@[k] == (if m.contains_key(t[k].edge_use.edge) {
                    Some(m[t[k].edge_use.edge] as usize)
                } else {
                    None
                }),
                forall|e: u64| #[trigger] m.contains_key(e) ==> 0 <= m[e] < n,
            decreases n - j,
        {
            let a = table[i].edge_use;
            let b = table[j].edge_use;
            let same = (a.front == b.front && a.back == b.back) || (a.front == b.back && a.back == b.front);
            assert(agree@[i as int]@ == ag[i as int]);
            if !matched[i] && !matched[j] && same && table[i].face_idx != table[j].face_idx && agree[i][j] && a.edge != b.edge {
                matched.set(j, true);
                let e = b.edge;
                proof {
                    m = m.insert(e, i as int);
                }
                let mut k: usize = 0;
                while k < n
                    invariant
                        n == t.len(),
                        t == table@,
                        canon_of@.len() == n,
                        k <= n,
                        m.contains_key(e) && m[e] == i as int,
                        forall|q: int| 0 <= q < k ==> #[trigger] canon_of@[q] == (if m.contains_key(t[q].edge_use.edge) {
                            Some(m[t[q].edge_use.edge] as usize)
                        } else {
                            None
                        }),
                        forall|q: int| k <= q < n && t[q].edge_use.edge != e ==> #[trigger] canon_of@[q] == (if m.contains_key(t[q].edge_use.edge) {
                            Some(m[t[q].edge_use.edge] as usize)
                        } else {
                            None
                        }),
                    decreases n - k,
                {
                    if table[k].edge_use.edge == e {
                        canon_of.set(k, Some(i));
                    }
                    k = k + 1;
                }
            }
            j = j + 1;
        }
        i = i + 1;
    }
    canon_of
}

proof fn lemma_row_pass_len(t: Seq<HalfEdgeRecord>, agree: Seq<Seq<bool>>, st: (Seq<bool>, Map<u64, int>), i: int, j: int)
    requires
        st.0.len() == t.len(),
        0 <= i,
        j <= t.len(),
    ensures
        row_pass(t, agree, st, i, j).0.len() == t.len(),
    decreases j - i,
{
    if j > i + 1 {
        lemma_row_pass_len(t, agree, st, i, j - 1);
    }
}

proof fn lemma_rows_pass_len(t: Seq<HalfEdgeRecord>, agree: Seq<Seq<bool>>, i: int)
    ensures
        rows_pass(t, agree, i).0.len() == t.len(),
    decreases i,
{
    if i > 0 {
        lemma_rows_pass_len(t, agree, i - 1);
        lemma_row_pass_len(t, agree, rows_pass(t, agree, i - 1), i - 1, t.len() as int);
    }
}

/// What each use of the faces is replaced with when coincident edges are
/// welded (see `weld_rep`).
fn weld_replacements(faces: &[FaceTopo], agree: &Vec<Vec<bool>>, same_dir: &Vec<Vec<bool>>) -> (r: Vec<Option<(usize, bool)>>)
    requires
        square(half_edge_table(views(faces@)).len() as int, agree@),
        square(half_edge_table(views(faces@)).len() as int, same_dir@),
    ensures
        r@ == weld_rep(half_edge_table(views(faces@)), flag_groups_view(agree@), flag_groups_view(same_dir@)),
        r@.len() == half_edge_table(views(faces@)).len(),
        forall|i: int| 0 <= i < r@.len() ==> (#[trigger] r@[i] matches Some((a, _)) ==> a < r@.len()),
{
    let table = build_half_edge_table(faces);
    let ghost t = table@;
    let ghost ag = flag_groups_view(agree@);
    let ghost sd = flag_groups_view(same_dir@);
    let ghost m = weld_canon(t, ag);
    let targets = weld_targets(&table, agree);
    let n = table.len();
    let mut rep: Vec<Option<(usize, bool)>> = Vec::new();
    let mut k: usize = 0;
    while k < n
        invariant
            n == t.len(),
            t == table@,
            m == weld_canon(t, ag),
            sd == flag_groups_view(same_dir@),
            square(n as int, same_dir@),
            targets@.len() == n,
            forall|q: int| 0 <= q < n ==> #[trigger] targets@[q] == (if m.contains_key(t[q].edge_use.edge) {
                Some(m[t[q].edge_use.edge] as usize)
            } else {
                None
            }),
            forall|e: u64| #[trigger] m.contains_key(e) ==> 0 <= m[e] < n,
            k <= n,
            rep@.len() == k,
            forall|q: int| 0 <= q < k ==> #[trigger] rep@[q] == weld_rep(t, ag, sd)[q],
        decreases n - k,
    {
        match targets[k] {
            None => {
                rep.push(None);
            },
            Some(a) => {
                assert(m.contains_key(t[k as int].edge_use.edge));
                let ce = table[a].edge_use.edge;
                let mut taken = false;
                let mut q: usize = 0;
                while q < k
                    invariant
                        n == t.len(),
                        t == table@,
                        k < n,
                        q <= k,
                        a < n,
                        m.contains_key(t[k as int].edge_use.edge),
                        a == m[t[k as int].edge_use.edge],
                        ce == t[a as int].edge_use.edge,
                        targets@.len() == n,
                        forall|p: int| 0 <= p < n ==> #[trigger] targets@[p] == (if m.contains_key(t[p].edge_use.edge) {
                            Some(m[t[p].edge_use.edge] as usize)
                        } else {
                            None
                        }),
                        forall|e: u64| #[trigger] m.contains_key(e) ==> 0 <= m[e] < n,
                        !taken <==> forall|k2: int|
                            0 <= k2 < q && same_wire(t, k2, k as int) && #[trigger] m.contains_key(t[k2].edge_use.edge) ==> canon_edge(t, m, k2)
                                != canon_edge(t, m, k as int),
                    decreases k - q,
                {
                    if table[q].face_idx == table[k].face_idx && table[q].wire_idx == table[k].wire_idx {
                        match targets[q] {
                            Some(a2) => {
                                if table[a2].edge_use.edge == ce {
                                    taken = true;
                                }
                            },
                            None => {},
                        }
                    }
                    q = q + 1;
                }
                if taken {
                    rep.push(None);
                } else {
                    assert(same_dir@[k as int]@ == sd[k as int]);
                    rep.push(Some((a, same_dir[k][a])));
                }
            },
        }
        k = k + 1;
    }
    proof {
        assert(rep@ =~= weld_rep(t, ag, sd));
    }
    proof {
        assert forall|i: int| 0 <= i < rep@.len() implies (#[trigger] rep@[i] matches Some((a, _)) ==> a < rep@.len()) by {
            if rep@[i] is Some {
                assert(m.contains_key(t[i].edge_use.edge));
            }
        }
    }
    rep
}

/// The wires of every face after coincident edges are welded: uses joining
/// the same two vertices in different faces whose curves agree (`agree`,
/// from sampling) are welded greedily in table order (see `rows_pass`), the
/// later edge onto the earlier; every use whose edge was welded takes the
/// edge it was welded onto, once per wire (see `claims`), in the direction
/// `same_dir` gives (see `weld_rep`, `new_wires`).
pub fn welded_wires(faces: &[FaceTopo], agree: &Vec<Vec<bool>>, same_dir: &Vec<Vec<bool>>) -> (r: Vec<Vec<Vec<EdgeUse>>>)
    requires
        square(half_edge_table(views(faces@)).len() as int, agree@),
        square(half_edge_table(views(faces@)).len() as int, same_dir@),
    ensures
        r@.len() == faces@.len(),
        forall|f: int|
            0 <= f < faces@.len() ==> crate::wire_repair::wires_view((#[trigger] r@[f])@) == new_wires(
                views(faces@),
                weld_rep(half_edge_table(views(faces@)), flag_groups_view(agree@), flag_groups_view(same_dir@)),
                f,
            ),
{
    let rep = weld_replacements(faces, agree, same_dir);
    replaced_wires(faces, &rep)
}

/// The gap pairings as sequences.
pub open spec fn gap_views(gs: Seq<Option<Vec<(u64, u64)>>>) -> Seq<Option<Seq<(u64, u64)>>> {
    gs.map_values(|g: Option<Vec<(u64, u64)>>| gaps_view(g))
}

/// The sequence value when face `f` is rebuilt after welding: each earlier
/// face took what its rebuilding costs (see `rebuild_cost`).
pub open spec fn welded_seq(
    fv: Seq<FaceView>,
    rep: Seq<Option<(usize, bool)>>,
    gs: Seq<Option<Seq<(u64, u64)>>>,
    s0: u64,
    f: int,
) -> u64
    decreases f,
{
    if f <= 0 {
        s0
    } else {
        let s = welded_seq(fv, rep, gs, s0, f - 1);
        successor_n(s, rebuild_cost(new_wires(fv, rep, f - 1), gs[f - 1], s))
    }
}

/// Welds coincident edges of the faces (see `welded_wires`) and rebuilds
/// every face from its welded wires as a new face is made (see
/// `rebuilt_face`): each face whose wires a face accepts, directly or after
/// splitting or bridging, becomes a new face with the next identity; the
/// others are kept. `gaps[f]` is the caller's pairing of the open ends of
/// face `f`'s wires, by distance, for when they need bridging (see
/// `gap_repair_input` on `welded_wires`); `None` when it found none.
pub fn canonicalize_edges(
    faces: &[FaceTopo],
    agree: &Vec<Vec<bool>>,
    same_dir: &Vec<Vec<bool>>,
    gaps: &Vec<Option<Vec<(u64, u64)>>>,
    seq: &mut IdSequence,
) -> (r: Vec<FaceTopo>)
    requires
        square(half_edge_table(views(faces@)).len() as int, agree@),
        square(half_edge_table(views(faces@)).len() as int, same_dir@),
        gaps@.len() == faces@.len(),
    ensures
        ({
            let fv = views(faces@);
            let rep = weld_rep(half_edge_table(fv), flag_groups_view(agree@), flag_groups_view(same_dir@));
            let gs = gap_views(gaps@);
            &&& r@.len() == faces@.len()
            &&& forall|f: int|
                0 <= f < faces@.len() ==> rebuilt_face(
                    fv[f],
                    new_wires(fv, rep, f),
                    gs[f],
                    welded_seq(fv, rep, gs, old(seq).value(), f),
                    #[trigger] r@[f]@,
                )
            &&& final(seq).value() == welded_seq(fv, rep, gs, old(seq).value(), faces@.len() as int)
        }),
{
    let ghost fv = views(faces@);
    let ghost rep = weld_rep(half_edge_table(fv), flag_groups_view(agree@), flag_groups_view(same_dir@));
    let ghost gs = gap_views(gaps@);
    let ghost s0 = seq.value();
    let ww = welded_wires(faces, agree, same_dir);
    let mut out: Vec<FaceTopo> = Vec::new();
    let mut f: usize = 0;
    while f < faces.len()
        invariant
            fv == views(faces@),
            gs == gap_views(gaps@),
            gaps@.len() == faces@.len(),
            ww@.len() == faces@.len(),
            forall|g: int| 0 <= g < faces@.len() ==> crate::wire_repair::wires_view((#[trigger] ww@[g])@) == new_wires(fv, rep, g),
            f <= faces@.len(),
            out@.len() == f,
            forall|g: int| 0 <= g < f ==> rebuilt_face(fv[g], new_wires(fv, rep, g), gs[g], welded_seq(fv, rep, gs, s0, g), #[trigger] out@[g]@),
            seq.value() == welded_seq(fv, rep, gs, s0, f as int),
        decreases faces@.len() - f,
    {
        assert(fv[f as int] == faces@[f as int]@);
        assert(gs[f as int] == gaps_view(gaps@[f as int]));
        let nf = rebuild_face(&faces[f], &ww[f], &gaps[f], seq);
        out.push(nf);
        f = f + 1;
    }
    out
}

/// Whether a shell that fails the closed-shell test is accepted all the same
/// (its faces' orientations disagree, as after dividing coplanar faces):
/// exactly when it forms one connected component whose condition is Regular,
/// every edge is used exactly twice, and V - E + F == 2. The component count
/// and the condition come from the shell's own queries.
pub fn accepts_regular_shell(faces: &[FaceTopo], components: usize, regular: bool) -> (r: bool)
    requires
        3 * half_edge_table(views(faces@)).len() + faces@.len() <= i64::MAX,
    ensures
        r <==> {
            &&& components == 1
            &&& regular
            &&& forall|e: u64|
                edge_ids(half_edge_table(views(faces@))).contains(e) ==> use_count(half_edge_table(views(faces@)), e) == 2
            &&& euler_chi(views(faces@)) == 2
        },
{
    if components != 1 || !regular {
        return false;
    }
    let open = diagnose_open_edges(faces);
    if open.len() > 0 {
        proof {
            assert(crate::topology::is_open_entry(half_edge_table(views(faces@)), open@[0]));
        }
        return false;
    }
    validate_euler_characteristic(faces).is_ok()
}

/// The reason shell assembly gives up with `open` edges still open.
pub open spec fn assembly_failure_text(open: nat) -> Seq<char> {
    "v2: "@ + decimal(open) + " open edges after all levels (3 weld + force_merge)"@
}

impl WeldProgress {
    /// No level run yet.
    pub fn new() -> (r: Self)
        ensures
            r.last_open == 0,
            r.best_open == usize::MAX,
            r.best_level is None,
    {
        WeldProgress { last_open: 0, best_open: usize::MAX, best_level: None }
    }

    /// Records the open edge count a weld level left. Returns whether that
    /// state is the best so far — some edge open, fewer than any level left
    /// before — and is to be kept for merging.
    pub fn record_level(&mut self, level: usize, open: usize) -> (keep: bool)
        ensures
            keep == (open > 0 && open < old(self).best_open),
            final(self).last_open == open,
            keep ==> final(self).best_open == open && final(self).best_level == Some(level),
            !keep ==> final(self).best_open == old(self).best_open && final(self).best_level == old(self).best_level,
    {
        let keep = open > 0 && open < self.best_open;
        if keep {
            self.best_open = open;
            self.best_level = Some(level);
        }
        self.last_open = open;
        keep
    }

    /// Whether the kept state is merged first: there is one, and it had
    /// fewer open edges than the last level left.
    pub fn best_first(&self) -> (r: bool)
        ensures
            r == (self.best_level is Some && self.best_open < self.last_open),
    {
        self.best_level.is_some() && self.best_open < self.last_open
    }

    /// Records the open edge count a merge left: the last count becomes the
    /// smaller of the two.
    pub fn record_merge(&mut self, open: usize)
        ensures
            final(self).last_open == if open < old(self).last_open {
                open
            } else {
                old(self).last_open
            },
            final(self).best_open == old(self).best_open,
            final(self).best_level == old(self).best_level,
    {
        if open < self.last_open {
            self.last_open = open;
        }
    }

    /// The error when no level and no merge closed the shell.
    pub fn failure(&self) -> (r: BooleanStageError)
        ensures
            r matches BooleanStageError::ShellAssembly(t) && t@ == assembly_failure_text(self.last_open as nat),
    {
        let mut s = String::from_str("v2: ");
        push_decimal(&mut s, self.last_open as u64);
        s.append(" open edges after all levels (3 weld + force_merge)");
        proof {
            reveal_strlit("v2: ");
            reveal_strlit(" open edges after all levels (3 weld + force_merge)");
        }
        BooleanStageError::ShellAssembly(s)
    }
}

} // verus!
