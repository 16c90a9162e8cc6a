//! Rebuilding the faces of a shell after coincident vertices are merged:
//! every edge use that touches a merged vertex moves onto a new edge between
//! the canonical vertices, and uses whose two ends merge are dropped.
use vstd::prelude::*;
use std::collections::HashMap;
use crate::topology::{EdgeUse, FaceTopo, FaceView, views, wires_of};
use crate::open_loops::{is_closed_chain, closed_chain};
use crate::id::{IdSequence, next_sequential_id, successor_n};

verus! {

/// The vertex that `v` merges into: its canonical vertex, or itself.
pub open spec fn unified(m: Map<u64, u64>, v: u64) -> u64 {
    if m.contains_key(v) {
        m[v]
    } else {
        v
    }
}

/// Use `u` touches a merged vertex.
pub open spec fn touched(m: Map<u64, u64>, u: EdgeUse) -> bool {
    m.contains_key(u.front) || m.contains_key(u.back)
}

/// Use `u` needs a new edge: it touches a merged vertex and its ends stay
/// apart.
pub open spec fn needs_edge(m: Map<u64, u64>, u: EdgeUse) -> bool {
    touched(m, u) && unified(m, u.front) != unified(m, u.back)
}

/// How many of the first `e` uses of a wire need a new edge.
pub open spec fn wire_edges_upto(m: Map<u64, u64>, wire: Seq<EdgeUse>, e: int) -> nat
    decreases e,
{
    if e <= 0 {
        0
    } else {
        wire_edges_upto(m, wire, e - 1) + if needs_edge(m, wire[e - 1]) {
            1nat
        } else {
            0nat
        }
    }
}

/// How many uses of the first `w` wires need a new edge.
pub open spec fn face_edges_upto(m: Map<u64, u64>, wires: Seq<Seq<EdgeUse>>, w: int) -> nat
    decreases w,
{
    if w <= 0 {
        0
    } else {
        face_edges_upto(m, wires, w - 1) + wire_edges_upto(m, wires[w - 1], wires[w - 1].len() as int)
    }
}

/// How many uses of the first `f` faces need a new edge.
pub open spec fn shell_edges_upto(fv: Seq<FaceView>, m: Map<u64, u64>, f: int) -> nat
    decreases f,
{
    if f <= 0 {
        0
    } else {
        shell_edges_upto(fv, m, f - 1) + face_edges_upto(m, fv[f - 1].wires, fv[f - 1].wires.len() as int)
    }
}

/// The first `e` uses of a wire after merging, with their own edges: a use
/// touching a merged vertex moves to the canonical ends, or is dropped when
/// they coincide.
pub open spec fn shape_upto(m: Map<u64, u64>, wire: Seq<EdgeUse>, e: int) -> Seq<EdgeUse>
    decreases e,
{
    if e <= 0 {
        Seq::empty()
    } else {
        let prev = shape_upto(m, wire, e - 1);
        let u = wire[e - 1];
        if !touched(m, u) {
            prev.push(u)
        } else if unified(m, u.front) == unified(m, u.back) {
            prev
        } else {
            prev.push(EdgeUse { edge: u.edge, front: unified(m, u.front), back: unified(m, u.back), forward: u.forward })
        }
    }
}

/// Face `f` is remade as a new face: it has a wire, and every wire after
/// merging is a closed chain.
pub open spec fn is_remade(fv: Seq<FaceView>, m: Map<u64, u64>, f: int) -> bool {
    &&& fv[f].wires.len() > 0
    &&& forall|w: int|
        0 <= w < fv[f].wires.len() ==> is_closed_chain(#[trigger] shape_upto(m, fv[f].wires[w], fv[f].wires[w].len() as int))
}

/// How many of the first `n` faces are remade.
pub open spec fn remade_before(fv: Seq<FaceView>, m: Map<u64, u64>, n: int) -> nat
    decreases n,
{
    if n <= 0 {
        0
    } else {
        remade_before(fv, m, n - 1) + if is_remade(fv, m, n - 1) {
            1nat
        } else {
            0nat
        }
    }
}

/// The first `e` uses of wire `w` of face `f` after merging: a use that needs
/// a new edge gets the next identity of the sequence — identities are taken
/// use by use, and by each remade face after its uses.
pub open spec fn new_wire_upto(fv: Seq<FaceView>, m: Map<u64, u64>, seq0: u64, f: int, w: int, e: int) -> Seq<EdgeUse>
    decreases e,
{
    if e <= 0 {
        Seq::empty()
    } else {
        let prev = new_wire_upto(fv, m, seq0, f, w, e - 1);
        let u = fv[f].wires[w][e - 1];
        if !touched(m, u) {
            prev.push(u)
        } else if unified(m, u.front) == unified(m, u.back) {
            prev
        } else {
            let before = shell_edges_upto(fv, m, f) + face_edges_upto(m, fv[f].wires, w) + wire_edges_upto(
                m,
                fv[f].wires[w],
                e - 1,
            ) + remade_before(fv, m, f);
            let id = successor_n(seq0, before);
            prev.push(EdgeUse { edge: id, front: unified(m, u.front), back: unified(m, u.back), forward: u.forward })
        }
    }
}

/// The wires face `f` ends up with: the merged ones when it is remade, else
/// its own.
pub open spec fn healed_wires(fv: Seq<FaceView>, m: Map<u64, u64>, seq0: u64, f: int) -> Seq<Seq<EdgeUse>> {
    if is_remade(fv, m, f) {
        Seq::new(fv[f].wires.len(), |w: int| new_wire_upto(fv, m, seq0, f, w, fv[f].wires[w].len() as int))
    } else {
        fv[f].wires
    }
}

/// The identity face `f` ends up with: the next one of the sequence after
/// its uses' new edges when it is remade, else its own.
pub open spec fn healed_id(fv: Seq<FaceView>, m: Map<u64, u64>, seq0: u64, f: int) -> u64 {
    if is_remade(fv, m, f) {
        successor_n(seq0, shell_edges_upto(fv, m, f + 1) + remade_before(fv, m, f))
    } else {
        fv[f].id
    }
}

proof fn lemma_new_wire_shape(fv: Seq<FaceView>, m: Map<u64, u64>, seq0: u64, f: int, w: int, e: int)
    requires
        0 <= e <= fv[f].wires[w].len(),
    ensures
        new_wire_upto(fv, m, seq0, f, w, e).len() == shape_upto(m, fv[f].wires[w], e).len(),
        forall|q: int|
            0 <= q < shape_upto(m, fv[f].wires[w], e).len() ==> (#[trigger] new_wire_upto(fv, m, seq0, f, w, e)[q]).front
                == shape_upto(m, fv[f].wires[w], e)[q].front && new_wire_upto(fv, m, seq0, f, w, e)[q].back == shape_upto(
                m,
                fv[f].wires[w],
                e,
            )[q].back,
    decreases e,
{
    if e > 0 {
        lemma_new_wire_shape(fv, m, seq0, f, w, e - 1);
    }
}

proof fn lemma_closed_same_ends(a: Seq<EdgeUse>, b: Seq<EdgeUse>)
    requires
        a.len() == b.len(),
        forall|q: int| 0 <= q < b.len() ==> (#[trigger] a[q]).front == b[q].front && a[q].back == b[q].back,
    ensures
        is_closed_chain(a) == is_closed_chain(b),
{
    if is_closed_chain(b) {
        assert forall|k: int| #![trigger a[k].back] 0 <= k < a.len() - 1 implies a[k].back == a[k + 1].front by {
            assert(b[k].back == b[k + 1].front);
            assert(a[k + 1].front == b[k + 1].front);
        }
    }
    if is_closed_chain(a) {
        assert forall|k: int| #![trigger b[k].back] 0 <= k < b.len() - 1 implies b[k].back == b[k + 1].front by {
            assert(a[k].back == a[k + 1].front);
            assert(a[k + 1].front == b[k + 1].front);
            assert(a[k].back == b[k].back);
        }
    }
}

/// The canonical vertex of `v`, or `v` itself; and whether `v` merges.
fn unified_of(unify: &HashMap<u64, u64>, v: u64) -> (r: (u64, bool))
    ensures
        r.0 == unified(unify@, v),
        r.1 == unify@.contains_key(v),
{
    match unify.get(&v) {
        Some(c) => (*c, true),
        None => (v, false),
    }
}

/// The faces after merging the vertices that `unify` maps to their
/// canonical vertices. With nothing to merge the faces stay as they are.
/// Otherwise every use that touches a merged vertex moves to the canonical
/// ends on a new edge, whose identity is the next of the sequence — or is
/// dropped when both ends merge into one vertex; a face that keeps a wire
/// and whose wires are all closed chains becomes a new face with the next
/// identity (see `healed_wires`, `healed_id`), any other face stays as it
/// was.
pub fn heal_faces(faces: &[FaceTopo], unify: &HashMap<u64, u64>, seq: &mut IdSequence) -> (r: Vec<FaceTopo>)
    ensures
        r@.len() == faces@.len(),
        unify@.is_empty() ==> views(r@) == views(faces@) && final(seq).value() == old(seq).value(),
        !unify@.is_empty() ==> {
            &&& forall|f: int|
                0 <= f < faces@.len() ==> (#[trigger] r@[f]).id == healed_id(views(faces@), unify@, old(seq).value(), f)
                    && r@[f]@.wires == healed_wires(views(faces@), unify@, old(seq).value(), f)
            &&& final(seq).value() == successor_n(
                old(seq).value(),
                shell_edges_upto(views(faces@), unify@, faces@.len() as int) + remade_before(
                    views(faces@),
                    unify@,
                    faces@.len() as int,
                ),
            )
        },
{
    let ghost fv = views(faces@);
    let ghost m = unify@;
    let ghost seq0 = seq.value();
    if unify.is_empty() {
        let mut out: Vec<FaceTopo> = Vec::new();
        let mut i: usize = 0;
        while i < faces.len()
            invariant
                i <= faces@.len(),
                out@.len() == i,
                forall|j: int| 0 <= j < i ==> (#[trigger] out@[j])@ == faces@[j]@,
            decreases faces@.len() - i,
        {
            out.push(faces[i].clone());
            i = i + 1;
        }
        assert(views(out@) =~= views(faces@));
        return out;
    }
    let mut out: Vec<FaceTopo> = Vec::new();
    let mut fi: usize = 0;
    while fi < faces.len()
        invariant
            fi <= faces@.len(),
            fv == views(faces@),
            m == unify@,
            !m.is_empty(),
            out@.len() == fi,
            forall|f: int|
                0 <= f < fi ==> (#[trigger] out@[f]).id == healed_id(fv, m, seq0, f) && out@[f]@.wires == healed_wires(
                    fv,
                    m,
                    seq0,
                    f,
                ),
            seq.value() == successor_n(seq0, shell_edges_upto(fv, m, fi as int) + remade_before(fv, m, fi as int)),
        decreases faces@.len() - fi,
    {
        let face = &faces[fi];
        let ghost wires = wires_of(*face);
        assert(fv[fi as int].wires == wires);
        let ghost base = shell_edges_upto(fv, m, fi as int) + remade_before(fv, m, fi as int);
        let mut nws: Vec<Vec<EdgeUse>> = Vec::new();
        let mut all_closed = true;
        let mut wi: usize = 0;
        while wi < face.boundaries.len()
            invariant
                fi < faces@.len(),
                fv == views(faces@),
                m == unify@,
                *face == faces@[fi as int],
                wires == wires_of(*face),
                fv[fi as int].wires == wires,
                base == shell_edges_upto(fv, m, fi as int) + remade_before(fv, m, fi as int),
                wi <= wires.len(),
                nws@.len() == wi,
                forall|w: int| 0 <= w < wi ==> (#[trigger] nws@[w])@ == new_wire_upto(fv, m, seq0, fi as int, w, wires[w].len() as int),
                all_closed == forall|w: int|
                    0 <= w < wi ==> is_closed_chain(#[trigger] shape_upto(m, wires[w], wires[w].len() as int)),
                seq.value() == successor_n(seq0, base + face_edges_upto(m, wires, wi as int)),
            decreases wires.len() - wi,
        {
            let wire = &face.boundaries[wi];
            assert(wire@ == wires[wi as int]);
            let mut nw: Vec<EdgeUse> = Vec::new();
            let mut ei: usize = 0;
            while ei < wire.len()
                invariant
                    fi < faces@.len(),
                    fv == views(faces@),
                    m == unify@,
                    fv[fi as int].wires == wires,
                    wi < wires.len(),
                    wire@ == wires[wi as int],
                    base == shell_edges_upto(fv, m, fi as int) + remade_before(fv, m, fi as int),
                    ei <= wire@.len(),
                    nw@ == new_wire_upto(fv, m, seq0, fi as int, wi as int, ei as int),
                    seq.value() == successor_n(
                        seq0,
                        base + face_edges_upto(m, wires, wi as int) + wire_edges_upto(m, wire@, ei as int),
                    ),
                decreases wire@.len() - ei,
            {
                let u = wire[ei];
                let (nf, mf) = unified_of(unify, u.front);
                let (nb, mb) = unified_of(unify, u.back);
                if !mf && !mb {
                    nw.push(u);
                } else if nf != nb {
                    let id = next_sequential_id(seq);
                    nw.push(EdgeUse { edge: id, front: nf, back: nb, forward: u.forward });
                }
                ei = ei + 1;
            }
            proof {
                lemma_new_wire_shape(fv, m, seq0, fi as int, wi as int, wire@.len() as int);
                lemma_closed_same_ends(
                    new_wire_upto(fv, m, seq0, fi as int, wi as int, wire@.len() as int),
                    shape_upto(m, wires[wi as int], wire@.len() as int),
                );
            }
            let closed = closed_chain(&nw);
            all_closed = all_closed && closed;
            nws.push(nw);
            wi = wi + 1;
        }
        let ghost nwv = Seq::new(wires.len(), |w: int| new_wire_upto(fv, m, seq0, fi as int, w, wires[w].len() as int));
        let new_face = if nws.len() > 0 && all_closed {
            let id = next_sequential_id(seq);
            let f2 = FaceTopo { id, boundaries: nws };
            assert(f2@.wires =~= nwv);
            f2
        } else {
            face.clone()
        };
        out.push(new_face);
        proof {
            assert(is_remade(fv, m, fi as int) == (nws@.len() > 0 && all_closed));
            assert forall|f: int|
                0 <= f < fi + 1 implies (#[trigger] out@[f]).id == healed_id(fv, m, seq0, f) && out@[f]@.wires == healed_wires(
                    fv,
                    m,
                    seq0,
                    f,
                ) by {
            }
        }
        fi = fi + 1;
    }
    out
}

} // verus!
