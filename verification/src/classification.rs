//! Classification of face fragments as inside (And), outside (Or) or unknown
//! with respect to the other solid: integration by connected component, the
//! settling of unknown fragments, the propagation of known statuses to
//! unknown faces through shared edges, and the faces of a difference.
use vstd::prelude::*;
use std::collections::{HashMap, HashSet};
use crate::topology::{EdgeUse, FaceTopo, FaceView, HalfEdgeRecord, views, wires_of, half_edge_table, edge_ids, use_count, edge_use_counts, build_half_edge_table};
use crate::diagnostics::{BooleanStageError, EdgeNeighborReport};
use crate::reach::{reachable, reachable_from, adj_view, well_formed, is_walk};
use crate::open_loops::{flip, flip_use};

verus! {

/// Some face has identity `id`.
pub open spec fn has_face(faces: Seq<FaceView>, id: u64) -> bool {
    exists|i: int| 0 <= i < faces.len() && #[trigger] faces[i].id == id
}

/// Where a face fragment lies with respect to the other solid.
#[derive(Clone, Copy, PartialEq, Eq, Structural, Debug)]
pub enum ShapesOpStatus {
    /// Inside the other solid.
    And,
    /// Outside the other solid.
    Or,
    /// Not yet decided.
    Unknown,
}

/// The first `n` faces whose status in `st` is `s`, in order.
pub open spec fn select_upto(
    faces: Seq<FaceView>,
    st: Map<u64, ShapesOpStatus>,
    s: ShapesOpStatus,
    n: int,
) -> Seq<FaceView>
    decreases n,
{
    if n <= 0 {
        Seq::empty()
    } else {
        let prev = select_upto(faces, st, s, n - 1);
        if st[faces[n - 1].id] == s {
            prev.push(faces[n - 1])
        } else {
            prev
        }
    }
}

/// The faces whose status in `st` is `s`, in order.
pub open spec fn select_status(faces: Seq<FaceView>, st: Map<u64, ShapesOpStatus>, s: ShapesOpStatus) -> Seq<
    FaceView,
> {
    select_upto(faces, st, s, faces.len() as int)
}

/// The edges on the boundary of a set of faces: those the faces use an odd
/// number of times (once, for a manifold set of faces).
pub open spec fn boundary_edges(faces: Seq<FaceView>) -> Set<u64> {
    Set::new(|e: u64| use_count(half_edge_table(faces), e) % 2 == 1)
}

/// The edges a face uses.
pub open spec fn face_edges(a: FaceView) -> Set<u64> {
    edge_ids(half_edge_table(seq![a]))
}

/// Two distinct faces of the list share an edge.
pub open spec fn linked(fs: Seq<FaceView>, i: int, j: int) -> bool {
    i != j && exists|e: u64| face_edges(fs[i]).contains(e) && #[trigger] face_edges(fs[j]).contains(e)
}

/// A chain of faces of the list, each sharing an edge with the next.
pub open spec fn face_walk(fs: Seq<FaceView>, p: Seq<int>) -> bool {
    &&& p.len() >= 1
    &&& forall|k: int| 0 <= k < p.len() ==> 0 <= #[trigger] p[k] < fs.len()
    &&& forall|k: int| 0 <= k < p.len() - 1 ==> linked(fs, #[trigger] p[k], p[k + 1])
}

/// Faces `a` and `b` of the list lie in one connected component (joined by a
/// chain of edge-sharing faces).
pub open spec fn same_component(fs: Seq<FaceView>, a: int, b: int) -> bool {
    exists|p: Seq<int>| #[trigger] face_walk(fs, p) && p[0] == a && p.last() == b
}

/// The faces among the first `n` that lie in the component of face `i`, in order.
pub open spec fn component_upto(fs: Seq<FaceView>, i: int, n: int) -> Seq<FaceView>
    decreases n,
{
    if n <= 0 {
        Seq::empty()
    } else {
        let prev = component_upto(fs, i, n - 1);
        if same_component(fs, i, n - 1) {
            prev.push(fs[n - 1])
        } else {
            prev
        }
    }
}

/// The connected component of face `i`, in list order.
pub open spec fn component(fs: Seq<FaceView>, i: int) -> Seq<FaceView> {
    component_upto(fs, i, fs.len() as int)
}

/// The status a component takes from the number of its boundary edges that lie
/// on the boundary of the And faces (`a`) and of the Or faces (`o`): the
/// majority, or none on a tie.
pub open spec fn component_verdict(a: nat, o: nat) -> Option<ShapesOpStatus> {
    if a > 0 && o == 0 {
        Some(ShapesOpStatus::And)
    } else if o > 0 && a == 0 {
        Some(ShapesOpStatus::Or)
    } else if a > o {
        Some(ShapesOpStatus::And)
    } else if o > a {
        Some(ShapesOpStatus::Or)
    } else {
        None
    }
}

/// A component's verdict is the majority of its boundary edges met by And
/// faces (`a`) against those met by Or faces (`o`): more And gives And, more
/// Or gives Or, a tie (none at all included) gives no verdict; so a boundary
/// that meets only And faces gives And, and swapping the counts swaps the
/// verdict.
pub proof fn component_verdict_is_majority(a: nat, o: nat)
    ensures
        a > o ==> component_verdict(a, o) == Some(ShapesOpStatus::And),
        o > a ==> component_verdict(a, o) == Some(ShapesOpStatus::Or),
        a == o ==> component_verdict(a, o) is None,
        (a > 0 && o == 0) ==> component_verdict(a, o) == Some(ShapesOpStatus::And),
        (o > 0 && a == 0) ==> component_verdict(a, o) == Some(ShapesOpStatus::Or),
        component_verdict(a, o) == Some(ShapesOpStatus::And) <==> component_verdict(o, a) == Some(ShapesOpStatus::Or),
{
}

/// The status that unknown face `i` of `unknown` takes, given the boundary
/// edges of the And faces and of the Or faces.
pub open spec fn integrated_status(
    unknown: Seq<FaceView>,
    i: int,
    and_boundary: Set<u64>,
    or_boundary: Set<u64>,
) -> ShapesOpStatus {
    let b = boundary_edges(component(unknown, i));
    match component_verdict(b.intersect(and_boundary).len(), b.intersect(or_boundary).len()) {
        Some(s) => s,
        None => ShapesOpStatus::Unknown,
    }
}

/// An unknown face takes the majority verdict of its component: with `b` the
/// component's boundary edges, more of them on And faces' boundaries than on
/// Or faces' gives And, more on Or gives Or, and a tie leaves it Unknown.
pub proof fn integrated_status_is_majority(unknown: Seq<FaceView>, i: int, and_boundary: Set<u64>, or_boundary: Set<u64>)
    ensures
        ({
            let b = boundary_edges(component(unknown, i));
            let a = b.intersect(and_boundary).len();
            let o = b.intersect(or_boundary).len();
            &&& a > o ==> integrated_status(unknown, i, and_boundary, or_boundary) == ShapesOpStatus::And
            &&& o > a ==> integrated_status(unknown, i, and_boundary, or_boundary) == ShapesOpStatus::Or
            &&& a == o ==> integrated_status(unknown, i, and_boundary, or_boundary) == ShapesOpStatus::Unknown
        }),
{
}

/// The face identities of a list are pairwise distinct.
pub open spec fn ids_distinct(fs: Seq<FaceView>) -> bool {
    forall|a: int, b: int| 0 <= a < b < fs.len() ==> fs[a].id != fs[b].id
}

proof fn lemma_select_members(faces: Seq<FaceView>, st: Map<u64, ShapesOpStatus>, s: ShapesOpStatus, n: int)
    requires
        0 <= n <= faces.len(),
    ensures
        forall|k: int|
            0 <= k < select_upto(faces, st, s, n).len() ==> exists|j: int|
                0 <= j < n && #[trigger] select_upto(faces, st, s, n)[k] == faces[j] && st[faces[j].id] == s,
        ids_distinct(faces) ==> ids_distinct(select_upto(faces, st, s, n)),
        (forall|i: int| 0 <= i < faces.len() ==> st.contains_key(#[trigger] faces[i].id)) ==> forall|k: int|
            0 <= k < select_upto(faces, st, s, n).len() ==> st.contains_key(
                #[trigger] select_upto(faces, st, s, n)[k].id,
            ) && st[select_upto(faces, st, s, n)[k].id] == s,
        ids_distinct(faces) ==> forall|k: int, j: int|
            0 <= k < select_upto(faces, st, s, n).len() && n <= j < faces.len()
                ==> #[trigger] select_upto(faces, st, s, n)[k].id != #[trigger] faces[j].id,
    decreases n,
{
    if n > 0 {
        lemma_select_members(faces, st, s, n - 1);
        let prev = select_upto(faces, st, s, n - 1);
        let cur = select_upto(faces, st, s, n);
        assert forall|k: int| 0 <= k < cur.len() implies exists|j: int|
            0 <= j < n && #[trigger] cur[k] == faces[j] && st[faces[j].id] == s by {
            if k < prev.len() {
                assert(cur[k] == prev[k]);
                let j = choose|j: int| 0 <= j < n - 1 && #[trigger] prev[k] == faces[j] && st[faces[j].id] == s;
                assert(cur[k] == faces[j]);
            } else {
                assert(cur[k] == faces[n - 1]);
            }
        }
        if ids_distinct(faces) {
            assert forall|k: int, j: int| 0 <= k < cur.len() && n <= j < faces.len()
                implies #[trigger] cur[k].id != #[trigger] faces[j].id by {
                if k < prev.len() {
                    assert(cur[k] == prev[k]);
                    assert(prev[k].id != faces[j].id);
                } else {
                    assert(cur[k] == faces[n - 1]);
                }
            }
            assert forall|a: int, b: int| 0 <= a < b < cur.len() implies cur[a].id != cur[b].id by {
                if b < prev.len() {
                    assert(cur[a] == prev[a] && cur[b] == prev[b]);
                } else {
                    assert(cur[b] == faces[n - 1]);
                    assert(cur[a] == prev[a]);
                    assert(prev[a].id != faces[n - 1].id);
                }
            }
        }
    }
}

/// Faces with their classification status.
pub struct FacesClassification {
    shell: Vec<FaceTopo>,
    status: HashMap<u64, ShapesOpStatus>,
}

impl FacesClassification {
    /// The classified faces, in insertion order.
    pub closed spec fn faces(&self) -> Seq<FaceView> {
        views(self.shell@)
    }

    /// The status of each face identity.
    pub closed spec fn statuses(&self) -> Map<u64, ShapesOpStatus> {
        self.status@
    }

    /// Every face has a status.
    pub open spec fn wf(&self) -> bool {
        forall|i: int| 0 <= i < self.faces().len() ==> self.statuses().contains_key(#[trigger] self.faces()[i].id)
    }

    /// An empty classification.
    pub fn new() -> (r: Self)
        ensures
            r.faces() == Seq::<FaceView>::empty(),
            r.statuses() == Map::<u64, ShapesOpStatus>::empty(),
            r.wf(),
    {
        let r = FacesClassification { shell: Vec::new(), status: HashMap::new() };
        assert(r.faces() =~= Seq::<FaceView>::empty());
        r
    }

    /// Adds a face with its status.
    pub fn push(&mut self, face: FaceTopo, status: ShapesOpStatus)
        ensures
            final(self).faces() == old(self).faces().push(face@),
            final(self).statuses() == old(self).statuses().insert(face.id, status),
            old(self).wf() ==> final(self).wf(),
    {
        let ghost old_shell = self.shell@;
        self.status.insert(face.id, status);
        self.shell.push(face);
        assert(views(self.shell@) =~= views(old_shell).push(face@));
        proof {
            if old(self).wf() {
                assert forall|i: int| 0 <= i < self.faces().len() implies self.statuses().contains_key(
                    #[trigger] self.faces()[i].id,
                ) by {
                    if i < old_shell.len() {
                        assert(self.faces()[i] == old(self).faces()[i]);
                    }
                }
            }
        }
    }

    /// Resets to `Unknown` the status of each listed face identity that
    /// belongs to a face of the classification — the coplanar fragments
    /// found to overlap a coplanar face of the other shell; every other
    /// status stays.
    pub fn reset_overlapping_coplanar(&mut self, overlapping: &[u64])
        requires
            old(self).wf(),
        ensures
            final(self).faces() == old(self).faces(),
            final(self).statuses().dom() == old(self).statuses().dom(),
            final(self).wf(),
            forall|id: u64|
                #[trigger] old(self).statuses().contains_key(id) ==> final(self).statuses()[id] == if overlapping@.contains(id)
                    && has_face(old(self).faces(), id) {
                    ShapesOpStatus::Unknown
                } else {
                    old(self).statuses()[id]
                },
    {
        let ghost st0 = self.statuses();
        let mut k: usize = 0;
        while k < overlapping.len()
            invariant
                self.faces() == old(self).faces(),
                self.wf(),
                st0 == old(self).statuses(),
                self.statuses().dom() == st0.dom(),
                k <= overlapping@.len(),
                forall|id: u64|
                    #[trigger] st0.contains_key(id) ==> self.statuses()[id] == if overlapping@.take(k as int).contains(id)
                        && has_face(self.faces(), id) {
                        ShapesOpStatus::Unknown
                    } else {
                        st0[id]
                    },
            decreases overlapping@.len() - k,
        {
            let fid = overlapping[k];
            let mut found = false;
            let mut i: usize = 0;
            while i < self.shell.len()
                invariant
                    i <= self.shell@.len(),
                    found ==> has_face(self.faces(), fid),
                    !found ==> forall|j: int| 0 <= j < i ==> #[trigger] self.faces()[j].id != fid,
                decreases self.shell@.len() - i,
            {
                assert(self.faces()[i as int] == self.shell@[i as int]@);
                if self.shell[i].id == fid {
                    assert(self.faces()[i as int].id == fid);
                    found = true;
                }
                i = i + 1;
            }
            assert(overlapping@.take(k + 1) =~= overlapping@.take(k as int).push(fid));
            if found {
                let ghost sh = self.shell@;
                proof {
                    let j = choose|j: int| 0 <= j < self.faces().len() && self.faces()[j].id == fid;
                    assert(self.statuses().contains_key(self.faces()[j].id));
                }
                self.status.insert(fid, ShapesOpStatus::Unknown);
                assert(self.shell@ == sh);
                proof {
                    assert forall|i: int| 0 <= i < self.faces().len() implies self.statuses().contains_key(#[trigger] self.faces()[i].id) by {
                        assert(old(self).statuses().contains_key(self.faces()[i].id));
                    }
                    assert(self.statuses().dom() =~= st0.dom());
                    assert forall|id: u64| #[trigger] st0.contains_key(id) implies self.statuses()[id] == if overlapping@.take(k + 1).contains(
                        id,
                    ) && has_face(self.faces(), id) {
                        ShapesOpStatus::Unknown
                    } else {
                        st0[id]
                    } by {
                        crate::topology::lemma_push_contains(overlapping@.take(k as int), fid, id);
                    }
                }
            } else {
                proof {
                    assert(!has_face(self.faces(), fid));
                    assert forall|id: u64| #[trigger] st0.contains_key(id) implies self.statuses()[id] == if overlapping@.take(k + 1).contains(
                        id,
                    ) && has_face(self.faces(), id) {
                        ShapesOpStatus::Unknown
                    } else {
                        st0[id]
                    } by {
                        crate::topology::lemma_push_contains(overlapping@.take(k as int), fid, id);
                    }
                }
            }
            k = k + 1;
        }
        assert(overlapping@.take(overlapping@.len() as int) =~= overlapping@);
    }

    /// The faces with status `s`, in order.
    fn select(&self, s: ShapesOpStatus) -> (r: Vec<FaceTopo>)
        requires
            self.wf(),
        ensures
            views(r@) == select_status(self.faces(), self.statuses(), s),
    {
        let ghost fv = self.faces();
        let mut r: Vec<FaceTopo> = Vec::new();
        let mut i: usize = 0;
        while i < self.shell.len()
            invariant
                self.wf(),
                fv == self.faces(),
                i <= self.shell@.len(),
                views(r@) == select_upto(fv, self.statuses(), s, i as int),
            decreases self.shell@.len() - i,
        {
            let face = &self.shell[i];
            assert(fv[i as int] == face@);
            assert(self.statuses().contains_key(fv[i as int].id));
            let st = *self.status.get(&face.id).unwrap();
            if st == s {
                let ghost before = r@;
                r.push(face.clone());
                assert(views(r@) =~= views(before).push(face@));
            }
            i = i + 1;
        }
        r
    }

    /// Splits the faces by status: And faces, Or faces and Unknown faces, each
    /// in order.
    pub fn and_or_unknown(&self) -> (r: [Vec<FaceTopo>; 3])
        requires
            self.wf(),
        ensures
            views(r[0]@) == select_status(self.faces(), self.statuses(), ShapesOpStatus::And),
            views(r[1]@) == select_status(self.faces(), self.statuses(), ShapesOpStatus::Or),
            views(r[2]@) == select_status(self.faces(), self.statuses(), ShapesOpStatus::Unknown),
    {
        let and = self.select(ShapesOpStatus::And);
        let or = self.select(ShapesOpStatus::Or);
        let unknown = self.select(ShapesOpStatus::Unknown);
        [and, or, unknown]
    }
}

} // verus!

verus! {

/// The edges on the boundary of a list of faces, each once.
fn boundary_edge_list(faces: &[FaceTopo]) -> (r: Vec<u64>)
    ensures
        r@.no_duplicates(),
        forall|x: u64| r@.contains(x) <==> boundary_edges(views(faces@)).contains(x),
{
    let table = build_half_edge_table(faces);
    let ghost t = table@;
    let (edges, counts) = edge_use_counts(&table);
    let mut out: Vec<u64> = Vec::new();
    let mut j: usize = 0;
    while j < edges.len()
        invariant
            j <= edges@.len(),
            edges@.len() == counts@.len(),
            edges@.no_duplicates(),
            out@.no_duplicates(),
            forall|k: int| 0 <= k < counts@.len() ==> #[trigger] counts@[k] == use_count(t, edges@[k]),
            forall|x: u64| out@.contains(x) <==> exists|k: int| 0 <= k < j && #[trigger] edges@[k] == x && counts@[k] % 2 == 1,
        decreases edges@.len() - j,
    {
        if counts[j] % 2 == 1 {
            let x = edges[j];
            let ghost before = out@;
            proof {
                if before.contains(x) {
                    let k = choose|k: int| 0 <= k < j && #[trigger] edges@[k] == x && counts@[k] % 2 == 1;
                    assert(edges@[k] == edges@[j as int]);
                }
            }
            out.push(x);
            proof {
                assert forall|y: u64| out@.contains(y) <==> exists|k: int|
                    0 <= k < j + 1 && #[trigger] edges@[k] == y && counts@[k] % 2 == 1 by {
                    crate::topology::lemma_push_contains(before, x, y);
                    if y == x {
                        assert(edges@[j as int] == y);
                    }
                }
                assert forall|a: int, b: int| 0 <= a < b < out@.len() implies out@[a] != out@[b] by {
                    if b == before.len() {
                        assert(before[a] == out@[a]);
                        assert(before.contains(out@[a]));
                    } else {
                        assert(before[a] == out@[a] && before[b] == out@[b]);
                    }
                }
            }
        } else {
            proof {
                assert forall|y: u64| out@.contains(y) <==> exists|k: int|
                    0 <= k < j + 1 && #[trigger] edges@[k] == y && counts@[k] % 2 == 1 by {
                    if exists|k: int| 0 <= k < j + 1 && #[trigger] edges@[k] == y && counts@[k] % 2 == 1 {
                        let k = choose|k: int| 0 <= k < j + 1 && #[trigger] edges@[k] == y && counts@[k] % 2 == 1;
                        assert(k != j);
                    }
                }
            }
        }
        j = j + 1;
    }
    proof {
        assert forall|x: u64| out@.contains(x) <==> boundary_edges(views(faces@)).contains(x) by {
            crate::topology::lemma_use_count_bounds(t, x);
            if use_count(t, x) % 2 == 1 {
                assert(edges@.contains(x));
                let k = choose|k: int| 0 <= k < edges@.len() && edges@[k] == x;
                assert(counts@[k] == use_count(t, edges@[k]));
            }
        }
    }
    out
}

/// The set holding the elements of a list.
fn set_of(list: &Vec<u64>) -> (r: HashSet<u64>)
    ensures
        forall|x: u64| r@.contains(x) <==> list@.contains(x),
{
    let mut set: HashSet<u64> = HashSet::new();
    let mut k: usize = 0;
    while k < list.len()
        invariant
            k <= list@.len(),
            forall|x: u64| set@.contains(x) <==> list@.take(k as int).contains(x),
        decreases list@.len() - k,
    {
        let ghost pre = list@.take(k as int);
        set.insert(list[k]);
        proof {
            assert(list@.take(k + 1) =~= pre.push(list@[k as int]));
            assert forall|x: u64| set@.contains(x) <==> list@.take(k + 1).contains(x) by {
                crate::topology::lemma_push_contains(pre, list@[k as int], x);
            }
        }
        k = k + 1;
    }
    assert(list@.take(list@.len() as int) =~= list@);
    set
}

/// How many distinct elements of `list` lie in `set`.
fn count_common(list: &Vec<u64>, set: &HashSet<u64>) -> (r: usize)
    requires
        list@.no_duplicates(),
    ensures
        r == Set::new(|x: u64| list@.contains(x) && set@.contains(x)).len(),
{
    let mut count: usize = 0;
    let ghost mut counted: Set<u64> = Set::empty();
    let mut k: usize = 0;
    while k < list.len()
        invariant
            k <= list@.len(),
            list@.no_duplicates(),
            counted.finite(),
            count == counted.len(),
            count <= k,
            counted == Set::new(|x: u64| list@.take(k as int).contains(x) && set@.contains(x)),
        decreases list@.len() - k,
    {
        let x = list[k];
        let ghost pre = list@.take(k as int);
        proof {
            assert(list@.take(k + 1) =~= pre.push(x));
            if pre.contains(x) {
                let j = choose|j: int| 0 <= j < pre.len() && pre[j] == x;
                assert(list@[j] == list@[k as int]);
            }
        }
        if set.contains(&x) {
            proof {
                assert forall|y: u64| list@.take(k + 1).contains(y) <==> (pre.contains(y) || y == x) by {
                    crate::topology::lemma_push_contains(pre, x, y);
                }
                assert(Set::new(|y: u64| list@.take(k + 1).contains(y) && set@.contains(y)) =~= counted.insert(x));
                counted = counted.insert(x);
            }
            count = count + 1;
        } else {
            proof {
                assert forall|y: u64| list@.take(k + 1).contains(y) <==> (pre.contains(y) || y == x) by {
                    crate::topology::lemma_push_contains(pre, x, y);
                }
                assert(Set::new(|y: u64| list@.take(k + 1).contains(y) && set@.contains(y)) =~= counted);
            }
        }
        k = k + 1;
    }
    assert(list@.take(list@.len() as int) =~= list@);
    count
}

/// The edges a face uses, each once.
fn face_edge_list(face: &FaceTopo) -> (r: Vec<u64>)
    ensures
        forall|x: u64| r@.contains(x) <==> face_edges(face@).contains(x),
{
    let one = vec![face.clone()];
    assert(views(one@) =~= seq![face@]);
    let table = build_half_edge_table(one.as_slice());
    let (edges, _counts) = edge_use_counts(&table);
    edges
}

/// The status decision of a component from its boundary counts.
fn decide(a: usize, o: usize) -> (r: Option<ShapesOpStatus>)
    ensures
        r == component_verdict(a as nat, o as nat),
{
    if a > 0 && o == 0 {
        Some(ShapesOpStatus::And)
    } else if o > 0 && a == 0 {
        Some(ShapesOpStatus::Or)
    } else if a > o {
        Some(ShapesOpStatus::And)
    } else if o > a {
        Some(ShapesOpStatus::Or)
    } else {
        None
    }
}

} // verus!

verus! {

/// Whether some element of `list` lies in `set`.
fn meets(list: &Vec<u64>, set: &HashSet<u64>) -> (r: bool)
    ensures
        r <==> exists|x: u64| list@.contains(x) && #[trigger] set@.contains(x),
{
    let mut k: usize = 0;
    while k < list.len()
        invariant
            k <= list@.len(),
            forall|j: int| 0 <= j < k ==> !set@.contains(#[trigger] list@[j]),
        decreases list@.len() - k,
    {
        if set.contains(&list[k]) {
            assert(list@.contains(list@[k as int]));
            return true;
        }
        k = k + 1;
    }
    proof {
        assert forall|x: u64| list@.contains(x) implies !#[trigger] set@.contains(x) by {
            let j = choose|j: int| 0 <= j < list@.len() && list@[j] == x;
        }
    }
    false
}

/// The arcs between faces of a list that share an edge: entry `i` lists, in
/// increasing order, every other face `j` that shares an edge with face `i`.
fn build_adjacency(faces: &Vec<FaceTopo>) -> (r: Vec<Vec<usize>>)
    ensures
        r@.len() == faces@.len(),
        well_formed(adj_view(r@)),
        forall|i: int, j: usize|
            0 <= i < faces@.len() ==> (#[trigger] r@[i]@.contains(j) <==> (j < faces@.len() && linked(
                views(faces@),
                i,
                j as int,
            ))),
{
    let ghost fv = views(faces@);
    let n = faces.len();
    let mut lists: Vec<Vec<u64>> = Vec::new();
    let mut sets: Vec<HashSet<u64>> = Vec::new();
    let mut i: usize = 0;
    while i < n
        invariant
            n == faces@.len(),
            fv == views(faces@),
            i <= n,
            lists@.len() == i,
            sets@.len() == i,
            forall|k: int, x: u64| 0 <= k < i ==> (#[trigger] lists@[k]@.contains(x) <==> face_edges(fv[k]).contains(x)),
            forall|k: int, x: u64| 0 <= k < i ==> (#[trigger] sets@[k]@.contains(x) <==> face_edges(fv[k]).contains(x)),
        decreases n - i,
    {
        let l = face_edge_list(&faces[i]);
        let st = set_of(&l);
        lists.push(l);
        sets.push(st);
        i = i + 1;
    }
    let mut adj: Vec<Vec<usize>> = Vec::new();
    let mut a: usize = 0;
    while a < n
        invariant
            n == faces@.len(),
            fv == views(faces@),
            a <= n,
            lists@.len() == n,
            sets@.len() == n,
            forall|k: int, x: u64| 0 <= k < n ==> (#[trigger] lists@[k]@.contains(x) <==> face_edges(fv[k]).contains(x)),
            forall|k: int, x: u64| 0 <= k < n ==> (#[trigger] sets@[k]@.contains(x) <==> face_edges(fv[k]).contains(x)),
            adj@.len() == a,
            forall|v: int, k: int| 0 <= v < a && 0 <= k < adj@[v]@.len() ==> #[trigger] adj@[v]@[k] < n,
            forall|v: int, j: usize| 0 <= v < a ==> (#[trigger] adj@[v]@.contains(j) <==> (j < n && linked(fv, v, j as int))),
        decreases n - a,
    {
        let mut row: Vec<usize> = Vec::new();
        let mut b: usize = 0;
        while b < n
            invariant
                n == faces@.len(),
                fv == views(faces@),
                a < n,
                b <= n,
                lists@.len() == n,
                sets@.len() == n,
                forall|k: int, x: u64| 0 <= k < n ==> (#[trigger] lists@[k]@.contains(x) <==> face_edges(fv[k]).contains(x)),
                forall|k: int, x: u64| 0 <= k < n ==> (#[trigger] sets@[k]@.contains(x) <==> face_edges(fv[k]).contains(x)),
                forall|k: int| 0 <= k < row@.len() ==> #[trigger] row@[k] < b,
                forall|j: usize| #[trigger] row@.contains(j) <==> (j < b && linked(fv, a as int, j as int)),
            decreases n - b,
        {
            let ghost before = row@;
            let share = a != b && meets(&lists[b], &sets[a]);
            proof {
                if a != b {
                    if share {
                        let x = choose|x: u64| lists@[b as int]@.contains(x) && #[trigger] sets@[a as int]@.contains(x);
                        assert(face_edges(fv[a as int]).contains(x) && face_edges(fv[b as int]).contains(x));
                    } else {
                        assert forall|x: u64| face_edges(fv[a as int]).contains(x) implies !#[trigger] face_edges(fv[b as int]).contains(x) by {
                            assert(sets@[a as int]@.contains(x));
                            if face_edges(fv[b as int]).contains(x) {
                                assert(lists@[b as int]@.contains(x));
                            }
                        }
                    }
                }
            }
            if share {
                row.push(b);
            }
            proof {
                assert forall|j: usize| #[trigger] row@.contains(j) <==> (j < b + 1 && linked(fv, a as int, j as int)) by {
                    if share {
                        assert(row@ == before.push(b));
                        if row@.contains(j) {
                            let k = choose|k: int| 0 <= k < row@.len() && row@[k] == j;
                            if k < before.len() {
                                assert(before[k] == j);
                            }
                        }
                        if before.contains(j) {
                            let k = choose|k: int| 0 <= k < before.len() && before[k] == j;
                            assert(row@[k] == j);
                        }
                        assert(row@[before.len() as int] == b);
                    }
                }
                assert forall|k: int| 0 <= k < row@.len() implies #[trigger] row@[k] < b + 1 by {
                    if k < before.len() {
                        assert(row@[k] == before[k]);
                    }
                }
            }
            b = b + 1;
        }
        adj.push(row);
        a = a + 1;
    }
    adj
}

/// Walks in the adjacency lists are exactly chains of edge-sharing faces.
proof fn lemma_walks_agree(adj: Seq<Vec<usize>>, fv: Seq<FaceView>, p: Seq<int>)
    requires
        adj.len() == fv.len(),
        fv.len() <= usize::MAX,
        forall|i: int, j: usize|
            0 <= i < fv.len() ==> (#[trigger] adj[i]@.contains(j) <==> (j < fv.len() && linked(fv, i, j as int))),
    ensures
        is_walk(adj_view(adj), p) <==> face_walk(fv, p),
{
    let g = adj_view(adj);
    if is_walk(g, p) {
        assert forall|k: int| 0 <= k < p.len() - 1 implies linked(fv, #[trigger] p[k], p[k + 1]) by {
            assert(g[p[k]].contains(p[k + 1] as usize));
            assert(adj[p[k]]@.contains(p[k + 1] as usize));
        }
    }
    if face_walk(fv, p) {
        assert forall|k: int| 0 <= k < p.len() - 1 implies g[#[trigger] p[k]].contains(p[k + 1] as usize) by {
            assert(linked(fv, p[k], p[k + 1]));
            assert(0 <= p[k + 1] < fv.len());
            assert(adj[p[k]]@.contains(p[k + 1] as usize));
        }
    }
}

/// The faces of the list whose mask entry is set, in order.
fn masked_faces(faces: &Vec<FaceTopo>, mask: &Vec<bool>, i: Ghost<int>) -> (r: Vec<FaceTopo>)
    requires
        mask@.len() == faces@.len(),
        forall|k: int| 0 <= k < faces@.len() ==> (#[trigger] mask@[k] <==> same_component(views(faces@), i@, k)),
    ensures
        views(r@) == component(views(faces@), i@),
{
    let ghost fv = views(faces@);
    let mut r: Vec<FaceTopo> = Vec::new();
    let mut k: usize = 0;
    while k < faces.len()
        invariant
            fv == views(faces@),
            mask@.len() == faces@.len(),
            forall|j: int| 0 <= j < faces@.len() ==> (#[trigger] mask@[j] <==> same_component(fv, i@, j)),
            k <= faces@.len(),
            views(r@) == component_upto(fv, i@, k as int),
        decreases faces@.len() - k,
    {
        if mask[k] {
            let ghost before = r@;
            r.push(faces[k].clone());
            assert(views(r@) =~= views(before).push(fv[k as int]));
        }
        k = k + 1;
    }
    r
}

} // verus!

verus! {

proof fn lemma_reach_is_component(adj: Seq<Vec<usize>>, fv: Seq<FaceView>, a: int, b: int)
    requires
        adj.len() == fv.len(),
        fv.len() <= usize::MAX,
        forall|i: int, j: usize|
            0 <= i < fv.len() ==> (#[trigger] adj[i]@.contains(j) <==> (j < fv.len() && linked(fv, i, j as int))),
    ensures
        reachable(adj_view(adj), a, b) <==> same_component(fv, a, b),
{
    if reachable(adj_view(adj), a, b) {
        let p = choose|p: Seq<int>| #[trigger] is_walk(adj_view(adj), p) && p[0] == a && p.last() == b;
        lemma_walks_agree(adj, fv, p);
        assert(face_walk(fv, p));
    }
    if same_component(fv, a, b) {
        let p = choose|p: Seq<int>| #[trigger] face_walk(fv, p) && p[0] == a && p.last() == b;
        lemma_walks_agree(adj, fv, p);
        assert(is_walk(adj_view(adj), p));
    }
}

impl FacesClassification {
    /// Decides unknown faces by connected component: each component of
    /// edge-sharing unknown faces takes the status (And or Or) whose faces'
    /// boundary holds the majority of the component's boundary edges; on a tie
    /// the component stays unknown. Faces that were And or Or are untouched.
    pub fn integrate_by_component(&mut self)
        requires
            old(self).wf(),
            ids_distinct(old(self).faces()),
        ensures
            final(self).faces() == old(self).faces(),
            final(self).statuses().dom() == old(self).statuses().dom(),
            final(self).wf(),
            forall|i: int|
                0 <= i < select_status(old(self).faces(), old(self).statuses(), ShapesOpStatus::Unknown).len()
                    ==> final(self).statuses()[#[trigger] select_status(
                    old(self).faces(),
                    old(self).statuses(),
                    ShapesOpStatus::Unknown,
                )[i].id] == integrated_status(
                    select_status(old(self).faces(), old(self).statuses(), ShapesOpStatus::Unknown),
                    i,
                    boundary_edges(select_status(old(self).faces(), old(self).statuses(), ShapesOpStatus::And)),
                    boundary_edges(select_status(old(self).faces(), old(self).statuses(), ShapesOpStatus::Or)),
                ),
            forall|id: u64|
                old(self).statuses().contains_key(id) && (forall|i: int|
                    0 <= i < select_status(old(self).faces(), old(self).statuses(), ShapesOpStatus::Unknown).len()
                        ==> #[trigger] select_status(
                        old(self).faces(),
                        old(self).statuses(),
                        ShapesOpStatus::Unknown,
                    )[i].id != id) ==> final(self).statuses()[id] == old(self).statuses()[id],
    {
        let ghost fv = self.faces();
        let ghost st0 = self.statuses();
        let ghost uv = select_status(fv, st0, ShapesOpStatus::Unknown);
        let ghost av = boundary_edges(select_status(fv, st0, ShapesOpStatus::And));
        let ghost ov = boundary_edges(select_status(fv, st0, ShapesOpStatus::Or));
        proof {
            lemma_select_members(fv, st0, ShapesOpStatus::Unknown, fv.len() as int);
        }

        let and = self.select(ShapesOpStatus::And);
        let or = self.select(ShapesOpStatus::Or);
        let unknown = self.select(ShapesOpStatus::Unknown);
        let and_list = boundary_edge_list(and.as_slice());
        let and_set = set_of(&and_list);
        let or_list = boundary_edge_list(or.as_slice());
        let or_set = set_of(&or_list);
        let adj = build_adjacency(&unknown);
        assert(views(unknown@) == uv);

        let mut i: usize = 0;
        while i < unknown.len()
            invariant
                views(unknown@) == uv,
                self.faces() == fv,
                self.statuses().dom() == st0.dom(),
                fv == old(self).faces(),
                st0 == old(self).statuses(),
                old(self).wf(),
                ids_distinct(uv),
                forall|k: int|
                    0 <= k < uv.len() ==> st0.contains_key(#[trigger] uv[k].id) && st0[uv[k].id]
                        == ShapesOpStatus::Unknown,
                i <= uv.len(),
                adj@.len() == uv.len(),
                well_formed(adj_view(adj@)),
                forall|a: int, j: usize|
                    0 <= a < uv.len() ==> (#[trigger] adj@[a]@.contains(j) <==> (j < uv.len() && linked(uv, a, j as int))),
                forall|x: u64| and_set@.contains(x) <==> av.contains(x),
                forall|x: u64| or_set@.contains(x) <==> ov.contains(x),
                forall|k: int| 0 <= k < i ==> self.statuses()[#[trigger] uv[k].id] == integrated_status(uv, k, av, ov),
                forall|id: u64|
                    st0.contains_key(id) && (forall|k: int| 0 <= k < i ==> #[trigger] uv[k].id != id)
                        ==> self.statuses()[id] == st0[id],
            decreases uv.len() - i,
        {
            let (mask, _count) = reachable_from(&adj, i);
            proof {
                assert forall|k: int| 0 <= k < unknown@.len() implies (#[trigger] mask@[k] <==> same_component(
                    views(unknown@),
                    i as int,
                    k,
                )) by {
                    lemma_reach_is_component(adj@, uv, i as int, k);
                }
            }
            let comp = masked_faces(&unknown, &mask, Ghost(i as int));
            let b = boundary_edge_list(comp.as_slice());
            let a_cnt = count_common(&b, &and_set);
            let o_cnt = count_common(&b, &or_set);
            let ghost bset = boundary_edges(component(uv, i as int));
            proof {
                assert(Set::new(|x: u64| b@.contains(x) && and_set@.contains(x)) =~= bset.intersect(av));
                assert(Set::new(|x: u64| b@.contains(x) && or_set@.contains(x)) =~= bset.intersect(ov));
            }
            let verdict = decide(a_cnt, o_cnt);
            let id = unknown[i].id;
            assert(uv[i as int].id == id);
            proof {
                assert forall|k: int| 0 <= k < i implies #[trigger] uv[k].id != id by {
                    assert(uv[k].id != uv[i as int].id);
                }
            }
            match verdict {
                Some(s) => {
                    self.status.insert(id, s);
                },
                None => {},
            }
            proof {
                assert forall|k: int| 0 <= k < i + 1 implies self.statuses()[#[trigger] uv[k].id] == integrated_status(
                    uv,
                    k,
                    av,
                    ov,
                ) by {
                    if k < i {
                        assert(uv[k].id != uv[i as int].id);
                    }
                }
            }
            i = i + 1;
        }
        proof {
            assert forall|j: int| 0 <= j < self.faces().len() implies self.statuses().contains_key(
                #[trigger] self.faces()[j].id,
            ) by {
                assert(st0.contains_key(fv[j].id));
            }
        }
    }
}

} // verus!

verus! {

/// The edges used by a list of faces.
pub open spec fn shell_edges(fs: Seq<FaceView>) -> Set<u64> {
    edge_ids(half_edge_table(fs))
}

/// How many of the records use an edge of `edges`.
pub open spec fn uses_in(t: Seq<HalfEdgeRecord>, edges: Set<u64>) -> nat
    decreases t.len(),
{
    if t.len() == 0 {
        0
    } else {
        uses_in(t.drop_last(), edges) + if edges.contains(t.last().edge_use.edge) {
            1nat
        } else {
            0nat
        }
    }
}

/// The status a face takes from its edge uses shared with And faces (`and_edges`)
/// and with Or faces (`or_edges`): the majority; a tie with some And neighbor
/// goes to And; no neighbor at all leaves the face undecided.
pub open spec fn neighbor_vote(face: FaceView, and_edges: Set<u64>, or_edges: Set<u64>) -> Option<ShapesOpStatus> {
    let a = uses_in(half_edge_table(seq![face]), and_edges);
    let o = uses_in(half_edge_table(seq![face]), or_edges);
    if a > o {
        Some(ShapesOpStatus::And)
    } else if o > a {
        Some(ShapesOpStatus::Or)
    } else if a > 0 {
        Some(ShapesOpStatus::And)
    } else {
        None
    }
}

/// A remaining face's vote in a propagation round is the majority of its
/// edge uses shared with And faces (`a`) against those shared with Or faces
/// (`o`): more on Or edges sends it to Or whether or not it has And
/// neighbours, more on And edges sends it to And, a tie with some neighbour
/// goes to And, and a face with no neighbour at all stays undecided.
pub proof fn neighbor_vote_is_majority(face: FaceView, and_edges: Set<u64>, or_edges: Set<u64>)
    ensures
        ({
            let a = uses_in(half_edge_table(seq![face]), and_edges);
            let o = uses_in(half_edge_table(seq![face]), or_edges);
            &&& o > a ==> neighbor_vote(face, and_edges, or_edges) == Some(ShapesOpStatus::Or)
            &&& a > o ==> neighbor_vote(face, and_edges, or_edges) == Some(ShapesOpStatus::And)
            &&& (a == o && a > 0) ==> neighbor_vote(face, and_edges, or_edges) == Some(ShapesOpStatus::And)
            &&& neighbor_vote(face, and_edges, or_edges) is None <==> (a == 0 && o == 0)
        }),
{
}

proof fn lemma_uses_in_all(t: Seq<HalfEdgeRecord>, edges: Set<u64>, inside: bool)
    requires
        forall|k: int| 0 <= k < t.len() ==> edges.contains(#[trigger] t[k].edge_use.edge) == inside,
    ensures
        uses_in(t, edges) == if inside { t.len() } else { 0 },
    decreases t.len(),
{
    if t.len() > 0 {
        assert forall|k: int| 0 <= k < t.drop_last().len() implies edges.contains(#[trigger] t.drop_last()[k].edge_use.edge)
            == inside by {
            assert(t.drop_last()[k] == t[k]);
        }
        lemma_uses_in_all(t.drop_last(), edges, inside);
        assert(edges.contains(t[t.len() - 1].edge_use.edge) == inside);
    }
}

/// A face whose edges all lie on Or faces and none on And faces joins the Or
/// faces; the other way round it joins the And faces; a face sharing no edge
/// with either stays undecided.
pub proof fn neighbor_vote_unanimous(face: FaceView, and_edges: Set<u64>, or_edges: Set<u64>)
    ensures
        ({
            let t = half_edge_table(seq![face]);
            &&& (t.len() > 0 && forall|k: int| 0 <= k < t.len() ==> or_edges.contains(#[trigger] t[k].edge_use.edge)
                && !and_edges.contains(t[k].edge_use.edge)) ==> neighbor_vote(face, and_edges, or_edges) == Some(ShapesOpStatus::Or)
            &&& (t.len() > 0 && forall|k: int| 0 <= k < t.len() ==> and_edges.contains(#[trigger] t[k].edge_use.edge)
                && !or_edges.contains(t[k].edge_use.edge)) ==> neighbor_vote(face, and_edges, or_edges) == Some(ShapesOpStatus::And)
            &&& (forall|k: int| 0 <= k < t.len() ==> !and_edges.contains(#[trigger] t[k].edge_use.edge)
                && !or_edges.contains(t[k].edge_use.edge)) ==> neighbor_vote(face, and_edges, or_edges) is None
        }),
{
    let t = half_edge_table(seq![face]);
    if forall|k: int| 0 <= k < t.len() ==> or_edges.contains(#[trigger] t[k].edge_use.edge) && !and_edges.contains(t[k].edge_use.edge) {
        lemma_uses_in_all(t, or_edges, true);
        lemma_uses_in_all(t, and_edges, false);
    }
    if forall|k: int| 0 <= k < t.len() ==> and_edges.contains(#[trigger] t[k].edge_use.edge) && !or_edges.contains(t[k].edge_use.edge) {
        lemma_uses_in_all(t, and_edges, true);
        lemma_uses_in_all(t, or_edges, false);
    }
    if forall|k: int| 0 <= k < t.len() ==> !and_edges.contains(#[trigger] t[k].edge_use.edge) && !or_edges.contains(t[k].edge_use.edge) {
        lemma_uses_in_all(t, and_edges, false);
        lemma_uses_in_all(t, or_edges, false);
    }
}

/// One propagation round over the first `n` remaining faces: the faces that
/// go to And, those that go to Or, and those still undecided, each in order.
pub open spec fn round_upto(rem: Seq<FaceView>, and_edges: Set<u64>, or_edges: Set<u64>, n: int) -> (
    Seq<FaceView>,
    Seq<FaceView>,
    Seq<FaceView>,
)
    decreases n,
{
    if n <= 0 {
        (Seq::empty(), Seq::empty(), Seq::empty())
    } else {
        let (a, o, r) = round_upto(rem, and_edges, or_edges, n - 1);
        match neighbor_vote(rem[n - 1], and_edges, or_edges) {
            Some(ShapesOpStatus::And) => (a.push(rem[n - 1]), o, r),
            Some(ShapesOpStatus::Or) => (a, o.push(rem[n - 1]), r),
            _ => (a, o, r.push(rem[n - 1])),
        }
    }
}

/// Runs at most `rounds` propagation rounds: each round votes every remaining
/// face against the edges of the And and Or faces as they stood at the start
/// of the round, appends the decided faces to And or Or, and stops early when
/// nothing is left or a round decides nothing. Gives the final And faces, Or
/// faces, undecided faces, and the number of rounds run.
pub open spec fn propagate(and: Seq<FaceView>, or: Seq<FaceView>, rem: Seq<FaceView>, rounds: nat) -> (
    Seq<FaceView>,
    Seq<FaceView>,
    Seq<FaceView>,
    nat,
)
    decreases rounds,
{
    if rounds == 0 || rem.len() == 0 {
        (and, or, rem, 0)
    } else {
        let (ta, to, rest) = round_upto(rem, shell_edges(and), shell_edges(or), rem.len() as int);
        if ta.len() + to.len() == 0 {
            (and, or, rest, 1)
        } else {
            let (a2, o2, r2, k) = propagate(and + ta, or + to, rest, (rounds - 1) as nat);
            (a2, o2, r2, k + 1)
        }
    }
}

/// The number of propagation rounds allowed.
pub const EDGE_NEIGHBOR_ROUNDS: usize = 10;

} // verus!

verus! {

/// The set of edges used by a list of faces.
fn edge_set_of_faces(faces: &[FaceTopo]) -> (r: HashSet<u64>)
    ensures
        r@ == shell_edges(views(faces@)),
{
    let table = build_half_edge_table(faces);
    let ghost t = table@;
    let mut set: HashSet<u64> = HashSet::new();
    let mut i: usize = 0;
    while i < table.len()
        invariant
            table@ == t,
            i <= t.len(),
            set@ == edge_ids(t.take(i as int)),
        decreases t.len() - i,
    {
        set.insert(table[i].edge_use.edge);
        assert(t.take(i + 1).drop_last() =~= t.take(i as int));
        i = i + 1;
    }
    assert(t.take(t.len() as int) =~= t);
    set
}

/// How many edge uses of a face lie in `set`.
fn count_uses_in(face: &FaceTopo, set: &HashSet<u64>) -> (r: usize)
    ensures
        r == uses_in(half_edge_table(seq![face@]), set@),
{
    let one = vec![face.clone()];
    assert(views(one@) =~= seq![face@]);
    let table = build_half_edge_table(one.as_slice());
    let ghost t = table@;
    let mut count: usize = 0;
    let mut i: usize = 0;
    while i < table.len()
        invariant
            table@ == t,
            i <= t.len(),
            count == uses_in(t.take(i as int), set@),
            count <= i,
        decreases t.len() - i,
    {
        assert(t.take(i + 1).drop_last() =~= t.take(i as int));
        if set.contains(&table[i].edge_use.edge) {
            count = count + 1;
        }
        i = i + 1;
    }
    assert(t.take(t.len() as int) =~= t);
    count
}

/// One propagation round: moves the faces of `rem` that vote And or Or onto
/// the ends of `and_shell` and `or_shell`, and returns the undecided ones.
fn run_round(
    rem: &Vec<FaceTopo>,
    and_set: &HashSet<u64>,
    or_set: &HashSet<u64>,
    and_shell: &mut Vec<FaceTopo>,
    or_shell: &mut Vec<FaceTopo>,
) -> (r: Vec<FaceTopo>)
    ensures
        views(final(and_shell)@) == views(old(and_shell)@) + round_upto(views(rem@), and_set@, or_set@, rem@.len() as int).0,
        views(final(or_shell)@) == views(old(or_shell)@) + round_upto(views(rem@), and_set@, or_set@, rem@.len() as int).1,
        views(r@) == round_upto(views(rem@), and_set@, or_set@, rem@.len() as int).2,
{
    let ghost rv = views(rem@);
    let ghost a0 = views(and_shell@);
    let ghost o0 = views(or_shell@);
    let mut rest: Vec<FaceTopo> = Vec::new();
    let mut i: usize = 0;
    while i < rem.len()
        invariant
            rv == views(rem@),
            i <= rem@.len(),
            views(and_shell@) == a0 + round_upto(rv, and_set@, or_set@, i as int).0,
            views(or_shell@) == o0 + round_upto(rv, and_set@, or_set@, i as int).1,
            views(rest@) == round_upto(rv, and_set@, or_set@, i as int).2,
        decreases rem@.len() - i,
    {
        let face = &rem[i];
        assert(rv[i as int] == face@);
        let a = count_uses_in(face, and_set);
        let o = count_uses_in(face, or_set);
        let ghost (pa, po, pr) = round_upto(rv, and_set@, or_set@, i as int);
        if a > o || (a == o && a > 0) {
            let ghost before = and_shell@;
            and_shell.push(face.clone());
            assert(views(and_shell@) =~= views(before).push(face@));
            assert(a0 + pa.push(face@) =~= (a0 + pa).push(face@));
        } else if o > a {
            let ghost before = or_shell@;
            or_shell.push(face.clone());
            assert(views(or_shell@) =~= views(before).push(face@));
            assert(o0 + po.push(face@) =~= (o0 + po).push(face@));
        } else {
            let ghost before = rest@;
            rest.push(face.clone());
            assert(views(rest@) =~= views(before).push(face@));
        }
        i = i + 1;
    }
    rest
}

} // verus!

verus! {

/// Edge-neighbor propagation for faces that ray-casting left unresolved: in
/// up to ten rounds each remaining face joins And or Or by majority vote of
/// its edge uses shared with faces already there (see `propagate`). Reports
/// the faces entered, rounds run and faces resolved; fails with
/// `Classification` when faces remain undecided.
pub fn classify_by_edge_neighbors(
    unresolved: Vec<FaceTopo>,
    and_shell: &mut Vec<FaceTopo>,
    or_shell: &mut Vec<FaceTopo>,
    report: &mut EdgeNeighborReport,
) -> (r: Result<(), BooleanStageError>)
    ensures
        ({
            let (fa, fo, fr, fk) = propagate(
                views(old(and_shell)@),
                views(old(or_shell)@),
                views(unresolved@),
                EDGE_NEIGHBOR_ROUNDS as nat,
            );
            &&& views(final(and_shell)@) == fa
            &&& views(final(or_shell)@) == fo
            &&& final(report).faces_entered == unresolved@.len()
            &&& final(report).rounds_executed == fk
            &&& final(report).faces_resolved == unresolved@.len() - fr.len()
            &&& (r is Ok <==> fr.len() == 0)
            &&& (r matches Err(e) ==> e == BooleanStageError::Classification)
        }),
{
    let ghost target = propagate(
        views(and_shell@),
        views(or_shell@),
        views(unresolved@),
        EDGE_NEIGHBOR_ROUNDS as nat,
    );
    let initial_count = unresolved.len();
    let mut remaining = unresolved;
    let mut rounds_executed: usize = 0;
    let mut faces_resolved: usize = 0;
    let mut round: usize = 0;
    let mut done = false;
    while round < EDGE_NEIGHBOR_ROUNDS && !done
        invariant
            round <= EDGE_NEIGHBOR_ROUNDS,
            rounds_executed == round,
            remaining@.len() <= initial_count,
            faces_resolved == initial_count - remaining@.len(),
            done ==> {
                &&& views(and_shell@) == target.0
                &&& views(or_shell@) == target.1
                &&& views(remaining@) == target.2
                &&& rounds_executed == target.3
            },
            !done ==> {
                let (fa, fo, fr, fk) = propagate(
                    views(and_shell@),
                    views(or_shell@),
                    views(remaining@),
                    (EDGE_NEIGHBOR_ROUNDS - round) as nat,
                );
                &&& fa == target.0
                &&& fo == target.1
                &&& fr == target.2
                &&& fk + rounds_executed == target.3
            },
        decreases 2 * (EDGE_NEIGHBOR_ROUNDS - round) + if done { 0int } else { 1int },
    {
        if remaining.len() == 0 {
            done = true;
        } else {
            let ghost av = views(and_shell@);
            let ghost ov = views(or_shell@);
            let ghost rv = views(remaining@);
            let and_set = edge_set_of_faces(and_shell.as_slice());
            let or_set = edge_set_of_faces(or_shell.as_slice());
            let rest = run_round(&remaining, &and_set, &or_set, and_shell, or_shell);
            let ghost (ta, to, tr) = round_upto(rv, shell_edges(av), shell_edges(ov), rv.len() as int);
            proof {
                lemma_round_sizes(rv, shell_edges(av), shell_edges(ov), rv.len() as int);
            }
            let progress = rest.len() < remaining.len();
            faces_resolved = faces_resolved + (remaining.len() - rest.len());
            remaining = rest;
            rounds_executed = rounds_executed + 1;
            if !progress {
                done = true;
                assert(views(and_shell@) =~= av + ta);
                assert(views(or_shell@) =~= ov + to);
            }
            round = round + 1;
        }
    }
    report.faces_entered = initial_count;
    report.rounds_executed = rounds_executed;
    report.faces_resolved = faces_resolved;
    if remaining.len() > 0 {
        Err(BooleanStageError::Classification)
    } else {
        Ok(())
    }
}

proof fn lemma_round_sizes(rem: Seq<FaceView>, and_edges: Set<u64>, or_edges: Set<u64>, n: int)
    requires
        0 <= n <= rem.len(),
    ensures
        round_upto(rem, and_edges, or_edges, n).0.len() + round_upto(rem, and_edges, or_edges, n).1.len()
            + round_upto(rem, and_edges, or_edges, n).2.len() == n,
    decreases n,
{
    if n > 0 {
        lemma_round_sizes(rem, and_edges, or_edges, n - 1);
    }
}

} // verus!

verus! {

/// What to do with a coplanar overlap fragment.
#[derive(Clone, Copy, PartialEq, Eq, Structural, Debug)]
pub enum CoplanarAction {
    /// Remove the face (anti-sense overlap: an interior face between the solids).
    Remove,
    /// The face belongs in the And result.
    And,
    /// The face belongs in the Or result.
    Or,
}

/// What becomes of a fragment whose status is unknown.
#[derive(Clone, Copy, PartialEq, Eq, Structural, Debug)]
pub enum FragmentRoute {
    /// It is dropped.
    Removed,
    /// It joins the And faces.
    And,
    /// It joins the Or faces.
    Or,
    /// It waits for edge-neighbor propagation.
    Unresolved,
}

/// The route of an unknown fragment: the coplanar test decides first; else
/// the inside/outside count, where 1 means And and any other count Or; with
/// neither the fragment stays unresolved.
pub open spec fn route_spec(coplanar: Option<CoplanarAction>, inside: Option<isize>) -> FragmentRoute {
    match coplanar {
        Some(CoplanarAction::Remove) => FragmentRoute::Removed,
        Some(CoplanarAction::And) => FragmentRoute::And,
        Some(CoplanarAction::Or) => FragmentRoute::Or,
        None => match inside {
            Some(c) => if c == 1 {
                FragmentRoute::And
            } else {
                FragmentRoute::Or
            },
            None => FragmentRoute::Unresolved,
        },
    }
}

/// The coplanar test has the last word on a fragment it decides, whatever
/// the ray votes say; without it, a fragment found inside (1) joins the And
/// faces and one found outside (0) the Or faces; with neither it waits.
pub proof fn route_law(coplanar: Option<CoplanarAction>, inside: Option<isize>, other: Option<isize>)
    ensures
        coplanar is Some ==> route_spec(coplanar, inside) == route_spec(coplanar, other),
        route_spec(Some(CoplanarAction::Remove), inside) == FragmentRoute::Removed,
        route_spec(Some(CoplanarAction::And), inside) == FragmentRoute::And,
        route_spec(Some(CoplanarAction::Or), inside) == FragmentRoute::Or,
        route_spec(None, Some(1isize)) == FragmentRoute::And,
        route_spec(None, Some(0isize)) == FragmentRoute::Or,
        route_spec(None, None) == FragmentRoute::Unresolved,
{
}

/// The route of an unknown fragment (see `route_spec`).
pub fn route_unknown_fragment(coplanar: Option<CoplanarAction>, inside: Option<isize>) -> (r: FragmentRoute)
    ensures
        r == route_spec(coplanar, inside),
{
    match coplanar {
        Some(CoplanarAction::Remove) => FragmentRoute::Removed,
        Some(CoplanarAction::And) => FragmentRoute::And,
        Some(CoplanarAction::Or) => FragmentRoute::Or,
        None => match inside {
            Some(c) => if c == 1 {
                FragmentRoute::And
            } else {
                FragmentRoute::Or
            },
            None => FragmentRoute::Unresolved,
        },
    }
}

/// The first `n` fragments whose route is `target`, in order.
pub open spec fn routed_upto(
    faces: Seq<FaceView>,
    coplanar: Seq<Option<CoplanarAction>>,
    inside: Seq<Option<isize>>,
    target: FragmentRoute,
    n: int,
) -> Seq<FaceView>
    decreases n,
{
    if n <= 0 {
        Seq::empty()
    } else {
        let prev = routed_upto(faces, coplanar, inside, target, n - 1);
        if route_spec(coplanar[n - 1], inside[n - 1]) == target {
            prev.push(faces[n - 1])
        } else {
            prev
        }
    }
}

/// The fragments whose route is `target`, in order.
pub open spec fn routed(
    faces: Seq<FaceView>,
    coplanar: Seq<Option<CoplanarAction>>,
    inside: Seq<Option<isize>>,
    target: FragmentRoute,
) -> Seq<FaceView> {
    routed_upto(faces, coplanar, inside, target, faces.len() as int)
}

/// Settles the fragments whose status is unknown, given for each the result
/// of the coplanar test and the inside/outside count (see `route_spec`):
/// removed ones are dropped, And and Or ones join those faces in order, and
/// when some stay unresolved they go through edge-neighbor propagation
/// (see `classify_by_edge_neighbors`), which may fail; the report is left
/// alone otherwise.
pub fn settle_unknown_fragments(
    unknown: Vec<FaceTopo>,
    coplanar: &Vec<Option<CoplanarAction>>,
    inside: &Vec<Option<isize>>,
    and_shell: &mut Vec<FaceTopo>,
    or_shell: &mut Vec<FaceTopo>,
    report: &mut EdgeNeighborReport,
) -> (r: Result<(), BooleanStageError>)
    requires
        coplanar@.len() == unknown@.len(),
        inside@.len() == unknown@.len(),
    ensures
        ({
            let u = views(unknown@);
            let a1 = views(old(and_shell)@) + routed(u, coplanar@, inside@, FragmentRoute::And);
            let o1 = views(old(or_shell)@) + routed(u, coplanar@, inside@, FragmentRoute::Or);
            let ru = routed(u, coplanar@, inside@, FragmentRoute::Unresolved);
            let (fa, fo, fr, fk) = propagate(a1, o1, ru, EDGE_NEIGHBOR_ROUNDS as nat);
            &&& ru.len() == 0 ==> views(final(and_shell)@) == a1 && views(final(or_shell)@) == o1 && *final(report)
                == *old(report) && r is Ok
            &&& ru.len() > 0 ==> {
                &&& views(final(and_shell)@) == fa
                &&& views(final(or_shell)@) == fo
                &&& final(report).faces_entered == ru.len()
                &&& final(report).rounds_executed == fk
                &&& final(report).faces_resolved == ru.len() - fr.len()
                &&& (r is Ok <==> fr.len() == 0)
                &&& (r matches Err(e) ==> e == BooleanStageError::Classification)
            }
        }),
{
    let ghost u = views(unknown@);
    let ghost a0 = views(and_shell@);
    let ghost o0 = views(or_shell@);
    let mut unresolved: Vec<FaceTopo> = Vec::new();
    let mut i: usize = 0;
    while i < unknown.len()
        invariant
            u == views(unknown@),
            coplanar@.len() == unknown@.len(),
            inside@.len() == unknown@.len(),
            i <= unknown@.len(),
            views(and_shell@) == a0 + routed_upto(u, coplanar@, inside@, FragmentRoute::And, i as int),
            views(or_shell@) == o0 + routed_upto(u, coplanar@, inside@, FragmentRoute::Or, i as int),
            views(unresolved@) == routed_upto(u, coplanar@, inside@, FragmentRoute::Unresolved, i as int),
        decreases unknown@.len() - i,
    {
        let route = route_unknown_fragment(coplanar[i], inside[i]);
        let face = unknown[i].clone();
        assert(face@ == u[i as int]);
        match route {
            FragmentRoute::And => {
                let ghost before = and_shell@;
                and_shell.push(face);
                assert(views(and_shell@) =~= views(before).push(u[i as int]));
            },
            FragmentRoute::Or => {
                let ghost before = or_shell@;
                or_shell.push(face);
                assert(views(or_shell@) =~= views(before).push(u[i as int]));
            },
            FragmentRoute::Unresolved => {
                let ghost before = unresolved@;
                unresolved.push(face);
                assert(views(unresolved@) =~= views(before).push(u[i as int]));
            },
            FragmentRoute::Removed => {},
        }
        i = i + 1;
    }
    if unresolved.len() == 0 {
        assert(views(unresolved@).len() == 0);
        return Ok(());
    }
    classify_by_edge_neighbors(unresolved, and_shell, or_shell, report)
}

} // verus!

verus! {

/// Some use of the face lies on an edge, and every one lies on an edge of `s`.
pub open spec fn all_edges_in(face: FaceView, s: Set<u64>) -> bool {
    &&& exists|w: int| 0 <= w < face.wires.len() && (#[trigger] face.wires[w]).len() > 0
    &&& forall|w: int, k: int|
        0 <= w < face.wires.len() && 0 <= k < face.wires[w].len() ==> s.contains(#[trigger] face.wires[w][k].edge)
}

/// The first `n` faces for which `all_edges_in` is `pick`, in order.
pub open spec fn split_upto(faces: Seq<FaceView>, s: Set<u64>, pick: bool, n: int) -> Seq<FaceView>
    decreases n,
{
    if n <= 0 {
        Seq::empty()
    } else {
        let prev = split_upto(faces, s, pick, n - 1);
        if all_edges_in(faces[n - 1], s) == pick {
            prev.push(faces[n - 1])
        } else {
            prev
        }
    }
}

/// Whether the face has a use and every use lies on an edge of `s`.
fn face_edges_within(face: &FaceTopo, s: &HashSet<u64>) -> (r: bool)
    ensures
        r == all_edges_in(face@, s@),
{
    let ghost wires = wires_of(*face);
    assert(face@.wires == wires);
    let mut any = false;
    let mut wi: usize = 0;
    while wi < face.boundaries.len()
        invariant
            wires == wires_of(*face),
            face@.wires == wires,
            wi <= wires.len(),
            forall|w: int, k: int| 0 <= w < wi && 0 <= k < wires[w].len() ==> s@.contains(#[trigger] wires[w][k].edge),
            any == exists|w: int| 0 <= w < wi && (#[trigger] wires[w]).len() > 0,
        decreases wires.len() - wi,
    {
        let wire = &face.boundaries[wi];
        assert(wire@ == wires[wi as int]);
        let mut k: usize = 0;
        while k < wire.len()
            invariant
                wires == wires_of(*face),
                wi < wires.len(),
                wire@ == wires[wi as int],
                k <= wire@.len(),
                forall|j: int| 0 <= j < k ==> s@.contains(#[trigger] wire@[j].edge),
            decreases wire@.len() - k,
        {
            if !s.contains(&wire[k].edge) {
                assert(!s@.contains(wires[wi as int][k as int].edge));
                return false;
            }
            k = k + 1;
        }
        if wire.len() > 0 {
            assert(wires[wi as int].len() > 0);
            any = true;
        }
        wi = wi + 1;
    }
    any
}

/// The edges used by a list of faces.
fn edges_of_faces(faces: &[FaceTopo]) -> (r: HashSet<u64>)
    ensures
        r@ == edge_ids(half_edge_table(views(faces@))),
{
    let table = build_half_edge_table(faces);
    let ghost t = table@;
    let mut edges: HashSet<u64> = HashSet::new();
    let mut i: usize = 0;
    while i < table.len()
        invariant
            table@ == t,
            i <= t.len(),
            edges@ == edge_ids(t.take(i as int)),
        decreases t.len() - i,
    {
        edges.insert(table[i].edge_use.edge);
        assert(t.take(i + 1).drop_last() =~= t.take(i as int));
        i = i + 1;
    }
    assert(t.take(t.len() as int) =~= t);
    edges
}

/// Moves to the And faces the Or faces that are a contained face itself: a
/// face whose uses all lie on edges of the contained faces (and that has
/// one). The Or faces keep the others in order; the moved ones follow the
/// And faces in order.
pub fn reclassify_contained_faces(or_faces: &mut Vec<FaceTopo>, and_faces: &mut Vec<FaceTopo>, contained: &[FaceTopo])
    ensures
        ({
            let s = edge_ids(half_edge_table(views(contained@)));
            let o = views(old(or_faces)@);
            &&& views(final(or_faces)@) == split_upto(o, s, false, o.len() as int)
            &&& views(final(and_faces)@) == views(old(and_faces)@) + split_upto(o, s, true, o.len() as int)
        }),
{
    let s = edges_of_faces(contained);
    let ghost o = views(or_faces@);
    let ghost a0 = views(and_faces@);
    let mut kept: Vec<FaceTopo> = Vec::new();
    let mut i: usize = 0;
    while i < or_faces.len()
        invariant
            o == views(or_faces@),
            i <= o.len(),
            views(kept@) == split_upto(o, s@, false, i as int),
            views(and_faces@) == a0 + split_upto(o, s@, true, i as int),
        decreases o.len() - i,
    {
        let face = or_faces[i].clone();
        assert(face@ == o[i as int]);
        if face_edges_within(&face, &s) {
            let ghost before = and_faces@;
            and_faces.push(face);
            assert(views(and_faces@) =~= views(before).push(o[i as int]));
        } else {
            let ghost before = kept@;
            kept.push(face);
            assert(views(kept@) =~= views(before).push(o[i as int]));
        }
        i = i + 1;
    }
    *or_faces = kept;
}

} // verus!

verus! {

/// A wire run backwards, with every use reversed.
pub open spec fn reversed_wire(w: Seq<EdgeUse>) -> Seq<EdgeUse> {
    Seq::new(w.len(), |k: int| flip(w[w.len() - 1 - k]))
}

/// A face turned over: the same identity, every wire reversed.
pub open spec fn inverse_view(f: FaceView) -> FaceView {
    FaceView { id: f.id, wires: Seq::new(f.wires.len(), |w: int| reversed_wire(f.wires[w])) }
}

/// Turns a face over (see `inverse_view`).
pub fn inverse_face(face: &FaceTopo) -> (r: FaceTopo)
    ensures
        r@ == inverse_view(face@),
{
    let ghost wires = wires_of(*face);
    let mut out: Vec<Vec<EdgeUse>> = Vec::new();
    let mut wi: usize = 0;
    while wi < face.boundaries.len()
        invariant
            wires == wires_of(*face),
            wi <= wires.len(),
            out@.len() == wi,
            forall|w: int| 0 <= w < wi ==> (#[trigger] out@[w])@ == reversed_wire(wires[w]),
        decreases wires.len() - wi,
    {
        let wire = &face.boundaries[wi];
        assert(wire@ == wires[wi as int]);
        let mut rw: Vec<EdgeUse> = Vec::new();
        let mut k: usize = wire.len();
        while k > 0
            invariant
                k <= wire@.len(),
                rw@.len() == wire@.len() - k,
                forall|j: int| 0 <= j < rw@.len() ==> #[trigger] rw@[j] == flip(wire@[wire@.len() - 1 - j]),
            decreases k,
        {
            k = k - 1;
            rw.push(flip_use(wire[k]));
        }
        assert(rw@ =~= reversed_wire(wire@));
        out.push(rw);
        wi = wi + 1;
    }
    let r = FaceTopo { id: face.id, boundaries: out };
    assert(wires_of(r) =~= inverse_view(face@).wires);
    r
}

/// The faces of a difference: the Or faces of the first shell, then the And
/// faces of the second, turned over.
pub fn difference_faces(or0: &[FaceTopo], and1: &[FaceTopo]) -> (r: Vec<FaceTopo>)
    ensures
        views(r@) == views(or0@) + views(and1@).map_values(|f: FaceView| inverse_view(f)),
{
    let mut out: Vec<FaceTopo> = Vec::new();
    let mut i: usize = 0;
    while i < or0.len()
        invariant
            i <= or0@.len(),
            views(out@) == views(or0@).take(i as int),
        decreases or0@.len() - i,
    {
        let ghost before = out@;
        out.push(or0[i].clone());
        assert(views(out@) =~= views(before).push(or0@[i as int]@));
        assert(views(or0@).take(i + 1) =~= views(or0@).take(i as int).push(or0@[i as int]@));
        i = i + 1;
    }
    assert(views(or0@).take(or0@.len() as int) =~= views(or0@));
    let ghost inv = views(and1@).map_values(|f: FaceView| inverse_view(f));
    let mut j: usize = 0;
    while j < and1.len()
        invariant
            j <= and1@.len(),
            inv == views(and1@).map_values(|f: FaceView| inverse_view(f)),
            views(out@) == views(or0@) + inv.take(j as int),
        decreases and1@.len() - j,
    {
        let ghost before = out@;
        out.push(inverse_face(&and1[j]));
        assert(views(out@) =~= views(before).push(inv[j as int]));
        assert(inv.take(j + 1) =~= inv.take(j as int).push(inv[j as int]));
        j = j + 1;
    }
    assert(inv.take(and1@.len() as int) =~= inv);
    out
}

/// Turning a face over twice gives it back.
pub proof fn inverting_twice_gives_the_face_back(f: FaceView)
    ensures
        inverse_view(inverse_view(f)) == f,
{
    let g = inverse_view(inverse_view(f));
    assert forall|w: int| 0 <= w < f.wires.len() implies #[trigger] g.wires[w] == f.wires[w] by {
        let x = f.wires[w];
        assert(reversed_wire(reversed_wire(x)) =~= x);
    }
    assert(g.wires =~= f.wires);
}

} // verus!
