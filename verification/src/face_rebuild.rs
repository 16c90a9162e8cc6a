//! Rebuilding a face from new wires the way a new face is made: it is
//! accepted when its wires are simple closed chains that share no vertex;
//! otherwise after splitting wires at repeated vertices, after bridging the
//! gaps of wires that are not closed, or as it stands when every wire is
//! closed; when none of these applies the face is kept.
use vstd::prelude::*;
use crate::topology::{EdgeUse, FaceTopo, FaceView, is_simple, is_simple_wire, copy_wire};
use crate::open_loops::{is_closed_chain, closed_chain};
use crate::wire_repair::{wires_view, all_simple_closed, disjoint_wires, wires_are_disjoint};
use crate::splice::{split_non_simple_upto, split_non_simple_wires};
use crate::gap_repair::{pool, open_ends, pairs_open_ends, all_even, gap_uses, walk_result, repair_with_gaps};
use crate::id::{IdSequence, next_sequential_id, successor_n};

verus! {

/// The wires a new face is made from directly: at least one wire, every wire
/// a simple closed chain, and no vertex on two wires.
pub open spec fn face_accepts(ws: Seq<Seq<EdgeUse>>) -> bool {
    &&& ws.len() > 0
    &&& all_simple_closed(ws)
    &&& disjoint_wires(ws)
}

/// Every wire is a closed chain.
pub open spec fn all_closed(ws: Seq<Seq<EdgeUse>>) -> bool {
    forall|i: int| 0 <= i < ws.len() ==> is_closed_chain(#[trigger] ws[i])
}

/// Some wire is a closed chain that visits a vertex twice.
pub open spec fn splits_some(ws: Seq<Seq<EdgeUse>>) -> bool {
    exists|i: int| 0 <= i < ws.len() && !is_simple_wire(#[trigger] ws[i]) && is_closed_chain(ws[i])
}

/// The wires with every closed wire that visits a vertex twice split into
/// simple wires (see `split_non_simple_upto`).
pub open spec fn split_wires(ws: Seq<Seq<EdgeUse>>) -> Seq<Seq<EdgeUse>> {
    split_non_simple_upto(ws, ws.len() as int)
}

/// The wires a face made from `ws` gets without bridging gaps: `ws` when a
/// face accepts them; else the split wires when some wire was split and a
/// face accepts those; else, when every split wire is closed, the split
/// wires as they stand (if there are any); `None` otherwise.
pub open spec fn accepted_wires(ws: Seq<Seq<EdgeUse>>) -> Option<Seq<Seq<EdgeUse>>> {
    let w2 = split_wires(ws);
    if face_accepts(ws) {
        Some(ws)
    } else if splits_some(ws) && face_accepts(w2) {
        Some(w2)
    } else if !all_closed(w2) {
        None
    } else if w2.len() > 0 {
        Some(w2)
    } else {
        None
    }
}

/// The wires whose gaps are bridged: the split wires, when no face accepts
/// them as above and some of them is not closed.
pub open spec fn gap_repair_wires(ws: Seq<Seq<EdgeUse>>) -> Option<Seq<Seq<EdgeUse>>> {
    let w2 = split_wires(ws);
    if face_accepts(ws) || (splits_some(ws) && face_accepts(w2)) || all_closed(w2) {
        None
    } else {
        Some(w2)
    }
}

/// Bridging the gaps `g` of the wires `w2` succeeds (see `repair_with_gaps`).
pub open spec fn gap_repair_succeeds(w2: Seq<Seq<EdgeUse>>, g: Seq<(u64, u64)>, s0: u64) -> bool {
    &&& pool(w2).len() > 0
    &&& open_ends(w2).len() % 2 == 0
    &&& pairs_open_ends(w2, g)
    &&& all_even(pool(w2) + gap_uses(g, s0))
}

/// The gaps as sequences.
pub open spec fn gaps_view(gaps: Option<Vec<(u64, u64)>>) -> Option<Seq<(u64, u64)>> {
    match gaps {
        Some(g) => Some(g@),
        None => None,
    }
}

/// Rebuilding from `ws` with the caller's pairing `gaps` of the open ends
/// bridges gaps successfully.
pub open spec fn bridged(ws: Seq<Seq<EdgeUse>>, gaps: Option<Seq<(u64, u64)>>, s0: u64) -> bool {
    &&& accepted_wires(ws) is None
    &&& gap_repair_wires(ws) is Some
    &&& gaps is Some
    &&& gap_repair_succeeds(gap_repair_wires(ws)->0, gaps->0, s0)
}

/// How many identities rebuilding takes from the sequence: one for a new
/// face, after one per bridged gap; none when the face is kept.
pub open spec fn rebuild_cost(ws: Seq<Seq<EdgeUse>>, gaps: Option<Seq<(u64, u64)>>, s0: u64) -> nat {
    if accepted_wires(ws) is Some {
        1
    } else if bridged(ws, gaps, s0) {
        gaps->0.len() + 1
    } else {
        0
    }
}

/// `r` is what `face` becomes when rebuilt from the wires `ws` with the gap
/// pairing `gaps`, drawing from the sequence at `s0`: a new face with the
/// accepted wires (see `accepted_wires`) and the next identity; else, when
/// the gaps are bridged, a new face with the bridged and chained wires (see
/// `walk_result`) and the identity after the gap edges'; else the face as
/// it was.
pub open spec fn rebuilt_face(face: FaceView, ws: Seq<Seq<EdgeUse>>, gaps: Option<Seq<(u64, u64)>>, s0: u64, r: FaceView) -> bool {
    if accepted_wires(ws) is Some {
        r.id == s0 && r.wires == accepted_wires(ws)->0
    } else if bridged(ws, gaps, s0) {
        &&& r.id == successor_n(s0, gaps->0.len() as nat)
        &&& walk_result(pool(gap_repair_wires(ws)->0) + gap_uses(gaps->0, s0), r.wires)
    } else {
        r == face
    }
}

/// Whether a face is made from the wires directly (see `face_accepts`).
fn accepts(ws: &Vec<Vec<EdgeUse>>) -> (r: bool)
    ensures
        r == face_accepts(wires_view(ws@)),
{
    let ghost v = wires_view(ws@);
    if ws.len() == 0 {
        return false;
    }
    let mut i: usize = 0;
    while i < ws.len()
        invariant
            v == wires_view(ws@),
            i <= ws@.len(),
            forall|j: int| 0 <= j < i ==> is_simple_wire(#[trigger] v[j]) && is_closed_chain(v[j]),
        decreases ws@.len() - i,
    {
        assert(ws@[i as int]@ == v[i as int]);
        if !is_simple(&ws[i]) || !closed_chain(&ws[i]) {
            return false;
        }
        i = i + 1;
    }
    wires_are_disjoint(ws)
}

/// Whether every wire is a closed chain.
fn every_closed(ws: &Vec<Vec<EdgeUse>>) -> (r: bool)
    ensures
        r == all_closed(wires_view(ws@)),
{
    let ghost v = wires_view(ws@);
    let mut i: usize = 0;
    while i < ws.len()
        invariant
            v == wires_view(ws@),
            i <= ws@.len(),
            forall|j: int| 0 <= j < i ==> is_closed_chain(#[trigger] v[j]),
        decreases ws@.len() - i,
    {
        assert(ws@[i as int]@ == v[i as int]);
        if !closed_chain(&ws[i]) {
            return false;
        }
        i = i + 1;
    }
    true
}

/// A copy of the wires.
fn copy_wires(ws: &Vec<Vec<EdgeUse>>) -> (r: Vec<Vec<EdgeUse>>)
    ensures
        wires_view(r@) == wires_view(ws@),
{
    let mut out: Vec<Vec<EdgeUse>> = Vec::new();
    let mut i: usize = 0;
    while i < ws.len()
        invariant
            i <= ws@.len(),
            out@.len() == i,
            forall|j: int| 0 <= j < i ==> (#[trigger] out@[j])@ == ws@[j]@,
        decreases ws@.len() - i,
    {
        out.push(copy_wire(&ws[i]));
        i = i + 1;
    }
    assert(wires_view(out@) =~= wires_view(ws@));
    out
}

/// The wires whose open ends the caller pairs before rebuilding (see
/// `gap_repair_wires`).
pub fn gap_repair_input(ws: &Vec<Vec<EdgeUse>>) -> (r: Option<Vec<Vec<EdgeUse>>>)
    ensures
        r is Some <==> gap_repair_wires(wires_view(ws@)) is Some,
        r matches Some(w2) ==> gap_repair_wires(wires_view(ws@)) == Some(wires_view(w2@)),
{
    if accepts(ws) {
        return None;
    }
    let (w2, any) = split_non_simple_wires(ws);
    if any && accepts(&w2) {
        return None;
    }
    if every_closed(&w2) {
        return None;
    }
    Some(w2)
}

/// Rebuilds `face` from the new wires `ws` (see `rebuilt_face`): a face is
/// made from them directly, after splitting wires at repeated vertices, after
/// bridging gaps with the caller's pairing `gaps` of the open ends (from
/// distances), or from the split wires as they stand when all are closed;
/// otherwise the face is kept.
pub fn rebuild_face(
    face: &FaceTopo,
    ws: &Vec<Vec<EdgeUse>>,
    gaps: &Option<Vec<(u64, u64)>>,
    seq: &mut IdSequence,
) -> (r: FaceTopo)
    ensures
        rebuilt_face(face@, wires_view(ws@), gaps_view(*gaps), old(seq).value(), r@),
        final(seq).value() == successor_n(old(seq).value(), rebuild_cost(wires_view(ws@), gaps_view(*gaps), old(seq).value())),
{
    let ghost v = wires_view(ws@);
    let ghost s0 = seq.value();
    assert(successor_n(s0, 0) == s0);
    assert(successor_n(s0, 1) == crate::id::wrapping_successor(s0));
    if accepts(ws) {
        let id = next_sequential_id(seq);
        let nf = FaceTopo { id, boundaries: copy_wires(ws) };
        assert(nf@.wires =~= v);
        return nf;
    }
    let (w2, any) = split_non_simple_wires(ws);
    assert(splits_some(v) == any);
    if any && accepts(&w2) {
        let id = next_sequential_id(seq);
        let nf = FaceTopo { id, boundaries: w2 };
        assert(nf@.wires =~= split_wires(v));
        return nf;
    }
    if !every_closed(&w2) {
        assert(gap_repair_wires(v) == Some(wires_view(w2@)));
        assert(accepted_wires(v) is None);
        match gaps {
            Some(g) => {
                match repair_with_gaps(&w2, g, seq) {
                    Some(rw) => {
                        let ghost rwv = wires_view(rw@);
                        let id = next_sequential_id(seq);
                        let nf = FaceTopo { id, boundaries: rw };
                        assert(nf@.wires =~= rwv);
                        return nf;
                    },
                    None => {
                        return face.clone();
                    },
                }
            },
            None => {
                return face.clone();
            },
        }
    }
    if w2.len() > 0 {
        let id = next_sequential_id(seq);
        let nf = FaceTopo { id, boundaries: w2 };
        assert(nf@.wires =~= split_wires(v));
        return nf;
    }
    face.clone()
}

} // verus!
