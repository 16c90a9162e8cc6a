use truck_shapeops::diagnostics::BooleanStageError;
use truck_shapeops::edge_weld::{
    accepts_regular_shell, canonicalize_edges, fix_overcounted_edges, merge_open_edges, single_use_edges, welded_wires,
    WeldProgress,
};
use truck_shapeops::face_rebuild::gap_repair_input;
use truck_shapeops::topology::diagnose_open_edges;
use truck_shapeops::id::{current_sequence_value, IdSequence};
use truck_shapeops::topology::{EdgeUse, FaceTopo};

fn eu(edge: u64, front: u64, back: u64, forward: bool) -> EdgeUse {
    EdgeUse { edge, front, back, forward }
}

fn face(id: u64, wire: Vec<EdgeUse>) -> FaceTopo {
    FaceTopo { id, boundaries: vec![wire] }
}

/// Three triangles that all use edge 7 between vertices 0 and 1.
fn fan(third_closed: bool) -> Vec<FaceTopo> {
    let third = if third_closed {
        vec![eu(7, 0, 1, true), eu(25, 1, 4, true), eu(26, 4, 0, true)]
    } else {
        vec![eu(7, 0, 1, true), eu(25, 1, 4, true)]
    };
    vec![
        face(100, vec![eu(7, 0, 1, true), eu(21, 1, 2, true), eu(22, 2, 0, true)]),
        face(101, vec![eu(7, 1, 0, false), eu(23, 0, 3, true), eu(24, 3, 1, true)]),
        face(102, third),
    ]
}

#[test]
fn third_reference_moves_to_a_fresh_edge() {
    let faces = fan(true);
    let mut seq = IdSequence::new();
    let out = fix_overcounted_edges(&faces, &mut seq);
    assert_eq!(out.len(), 3);
    assert_eq!(out[0].id, 100);
    assert_eq!(out[0].boundaries, faces[0].boundaries);
    assert_eq!(out[1].id, 101);
    assert_eq!(out[1].boundaries, faces[1].boundaries);
    // The fresh edge takes identity 1, the new face identity 2.
    assert_eq!(out[2].id, 2);
    assert_eq!(out[2].boundaries, vec![vec![eu(1, 0, 1, true), eu(25, 1, 4, true), eu(26, 4, 0, true)]]);
    assert_eq!(current_sequence_value(&seq), 3);
}

#[test]
fn open_face_keeps_its_uses_but_the_identity_is_spent() {
    let faces = fan(false);
    let mut seq = IdSequence::new();
    let out = fix_overcounted_edges(&faces, &mut seq);
    assert_eq!(out[2].id, 102);
    assert_eq!(out[2].boundaries, faces[2].boundaries);
    assert_eq!(current_sequence_value(&seq), 2);
}

#[test]
fn edge_of_two_faces_is_left_alone() {
    let faces = vec![
        face(100, vec![eu(7, 0, 1, true), eu(21, 1, 2, true), eu(22, 2, 0, true)]),
        face(101, vec![eu(7, 1, 0, false), eu(23, 0, 3, true), eu(24, 3, 1, true)]),
    ];
    let mut seq = IdSequence::new();
    let out = fix_overcounted_edges(&faces, &mut seq);
    assert_eq!(out[0].id, 100);
    assert_eq!(out[1].id, 101);
    assert_eq!(out[0].boundaries, faces[0].boundaries);
    assert_eq!(out[1].boundaries, faces[1].boundaries);
    assert_eq!(current_sequence_value(&seq), 1);
}

#[test]
fn repeated_use_within_one_face_counts_that_face_once() {
    // Edge 7 appears twice in the first face and once in the second: two
    // faces, so nothing is over-counted although it has three uses.
    let faces = vec![
        face(100, vec![eu(7, 0, 1, true), eu(8, 1, 0, true), eu(7, 0, 1, true), eu(9, 1, 0, true)]),
        face(101, vec![eu(7, 1, 0, false), eu(23, 0, 3, true), eu(24, 3, 1, true)]),
    ];
    let mut seq = IdSequence::new();
    let out = fix_overcounted_edges(&faces, &mut seq);
    assert_eq!(out[0].boundaries, faces[0].boundaries);
    assert_eq!(out[1].boundaries, faces[1].boundaries);
    assert_eq!(current_sequence_value(&seq), 1);
}

#[test]
fn fourth_and_later_references_each_get_their_own_edge() {
    let mut faces = fan(true);
    faces.push(face(103, vec![eu(7, 1, 0, false), eu(30, 0, 5, true), eu(31, 5, 1, true)]));
    let mut seq = IdSequence::new();
    let out = fix_overcounted_edges(&faces, &mut seq);
    assert_eq!(out[2].id, 2);
    assert_eq!(out[2].boundaries[0][0], eu(1, 0, 1, true));
    assert_eq!(out[3].id, 4);
    assert_eq!(out[3].boundaries[0][0], eu(3, 1, 0, false));
    assert_eq!(current_sequence_value(&seq), 5);
}

/// Two triangles meant to share the side between vertices 0 and 1, which
/// each got its own edge (10 from 0 to 1, 20 from 1 to 0).
fn split_pair() -> Vec<FaceTopo> {
    vec![
        face(100, vec![eu(10, 0, 1, true), eu(11, 1, 2, true), eu(12, 2, 0, true)]),
        face(101, vec![eu(20, 1, 0, true), eu(13, 0, 3, true), eu(14, 3, 1, true)]),
    ]
}

#[test]
fn open_edges_at_one_place_merge_into_the_first() {
    let faces = split_pair();
    let open: Vec<u64> = diagnose_open_edges(&faces).iter().map(|i| i.edge).collect();
    assert!(open.contains(&10) && open.contains(&20));
    let mut seq = IdSequence::new();
    let (out, merged) = merge_open_edges(&faces, &vec![vec![10, 20]], &vec![vec![true, false]], &mut seq);
    assert_eq!(merged, 1);
    assert_eq!(out[0].id, 100);
    assert_eq!(out[0].boundaries, faces[0].boundaries);
    // Edge 20 ran against edge 10: its use takes edge 10 reversed.
    assert_eq!(out[1].id, 1);
    assert_eq!(out[1].boundaries, vec![vec![eu(10, 1, 0, false), eu(13, 0, 3, true), eu(14, 3, 1, true)]]);
    assert_eq!(current_sequence_value(&seq), 2);
}

#[test]
fn no_groups_merge_nothing() {
    let faces = split_pair();
    let mut seq = IdSequence::new();
    let (out, merged) = merge_open_edges(&faces, &vec![], &vec![], &mut seq);
    assert_eq!(merged, 0);
    assert_eq!(out[0].boundaries, faces[0].boundaries);
    assert_eq!(out[1].id, 101);
    assert_eq!(out[1].boundaries, faces[1].boundaries);
    assert_eq!(current_sequence_value(&seq), 1);
}

#[test]
fn merge_count_sums_over_groups() {
    let faces = vec![
        face(100, vec![eu(10, 0, 1, true), eu(11, 1, 2, true), eu(12, 2, 0, true)]),
        face(101, vec![eu(20, 0, 1, true), eu(21, 1, 2, true), eu(22, 2, 0, true)]),
        face(102, vec![eu(30, 0, 1, true), eu(31, 1, 2, true), eu(32, 2, 0, true)]),
    ];
    let mut seq = IdSequence::new();
    let groups = vec![vec![10, 20, 30], vec![11, 21]];
    let flags = vec![vec![true, true, true], vec![true, true]];
    let (out, merged) = merge_open_edges(&faces, &groups, &flags, &mut seq);
    assert_eq!(merged, 3);
    assert_eq!(out[1].boundaries, vec![vec![eu(10, 0, 1, true), eu(11, 1, 2, true), eu(22, 2, 0, true)]]);
    assert_eq!(out[2].boundaries, vec![vec![eu(10, 0, 1, true), eu(31, 1, 2, true), eu(32, 2, 0, true)]]);
    assert_eq!((out[0].id, out[1].id, out[2].id), (100, 1, 2));
}

#[test]
fn weld_levels_keep_the_state_with_fewest_open_edges() {
    let mut p = WeldProgress::new();
    assert!(p.record_level(0, 5));
    assert!(p.record_level(1, 3));
    assert!(!p.record_level(2, 4));
    assert_eq!((p.best_open, p.best_level, p.last_open), (3, Some(1), 4));
    // Level 1 left fewer open edges than the last level: it is merged first.
    assert!(p.best_first());
    p.record_merge(6);
    assert_eq!(p.last_open, 4);
    p.record_merge(2);
    assert_eq!(p.last_open, 2);
    match p.failure() {
        BooleanStageError::ShellAssembly(t) => assert_eq!(t, "v2: 2 open edges after all levels (3 weld + force_merge)"),
        _ => panic!("wrong error"),
    }
}

#[test]
fn closed_levels_are_never_kept() {
    let mut p = WeldProgress::new();
    assert!(!p.record_level(0, 0));
    assert!(p.best_level.is_none());
    assert!(!p.best_first());
    assert!(p.record_level(1, 7));
    assert!(!p.best_first());
}

#[test]
fn only_edges_used_once_are_merge_candidates() {
    let mut faces = split_pair();
    // Edge 11 gains a second use, edge 12 a second and a third.
    faces.push(face(102, vec![eu(11, 2, 1, false), eu(12, 0, 2, false), eu(15, 1, 0, true)]));
    faces.push(face(103, vec![eu(12, 2, 0, true), eu(16, 0, 2, true)]));
    assert_eq!(single_use_edges(&faces), vec![10, 13, 14, 15, 16, 20]);
    assert!(single_use_edges(&[]).is_empty());
}

/// A tetrahedron over vertices `v0..v0+3` with edges numbered from `e0`.
fn tetrahedron(v0: u64, e0: u64, f0: u64) -> Vec<FaceTopo> {
    let (a, b, c, d) = (v0, v0 + 1, v0 + 2, v0 + 3);
    // Edges: ab, bc, ca, ad, bd, cd.
    let (ab, bc, ca, ad, bd, cd) = (e0, e0 + 1, e0 + 2, e0 + 3, e0 + 4, e0 + 5);
    vec![
        face(f0, vec![eu(ab, a, b, true), eu(bc, b, c, true), eu(ca, c, a, true)]),
        face(f0 + 1, vec![eu(ab, b, a, false), eu(ad, a, d, true), eu(bd, d, b, false)]),
        face(f0 + 2, vec![eu(bc, c, b, false), eu(bd, b, d, true), eu(cd, d, c, false)]),
        face(f0 + 3, vec![eu(ca, a, c, false), eu(cd, c, d, true), eu(ad, d, a, false)]),
    ]
}

#[test]
fn regular_shell_is_accepted_only_when_single_closed_and_spherical() {
    let tet = tetrahedron(0, 0, 100);
    assert!(accepts_regular_shell(&tet, 1, true));
    assert!(!accepts_regular_shell(&tet, 2, true));
    assert!(!accepts_regular_shell(&tet, 1, false));
    // An open shell: one face missing.
    assert!(!accepts_regular_shell(&tet[..3], 1, true));
    // Two tetrahedra: every edge used twice, but V - E + F == 4.
    let mut two = tet.clone();
    two.extend(tetrahedron(10, 10, 200));
    assert!(!accepts_regular_shell(&two, 1, true));
}

#[test]
fn coincident_edges_of_two_faces_are_welded_onto_the_first() {
    let faces = split_pair();
    let n = 6;
    let agree = vec![vec![true; n]; n];
    // Use 3 (edge 20, from vertex 1) starts at the end of use 0's edge 10.
    let mut same_dir = vec![vec![true; n]; n];
    same_dir[3][0] = false;
    let mut seq = IdSequence::new();
    let out = canonicalize_edges(&faces, &agree, &same_dir, &vec![None, None], &mut seq);
    // Every face is made anew, in order.
    assert_eq!(out[0].id, 1);
    assert_eq!(out[0].boundaries, faces[0].boundaries);
    assert_eq!(out[1].id, 2);
    assert_eq!(out[1].boundaries, vec![vec![eu(10, 1, 0, false), eu(13, 0, 3, true), eu(14, 3, 1, true)]]);
    assert_eq!(current_sequence_value(&seq), 3);
}

#[test]
fn edges_whose_curves_disagree_are_not_welded() {
    let faces = split_pair();
    let n = 6;
    let agree = vec![vec![false; n]; n];
    let same_dir = vec![vec![true; n]; n];
    let mut seq = IdSequence::new();
    let out = canonicalize_edges(&faces, &agree, &same_dir, &vec![None, None], &mut seq);
    assert_eq!((out[0].id, out[1].id), (1, 2));
    assert_eq!(out[0].boundaries, faces[0].boundaries);
    assert_eq!(out[1].boundaries, faces[1].boundaries);
    assert_eq!(current_sequence_value(&seq), 3);
}

#[test]
fn edges_within_one_face_are_not_welded() {
    // One face runs along the same pair of vertices twice, with two edges.
    let faces = vec![face(100, vec![eu(10, 0, 1, true), eu(20, 1, 0, true)])];
    let agree = vec![vec![true; 2]; 2];
    let same_dir = vec![vec![true; 2]; 2];
    let mut seq = IdSequence::new();
    let out = canonicalize_edges(&faces, &agree, &same_dir, &vec![None], &mut seq);
    assert_eq!(out[0].id, 1);
    assert_eq!(out[0].boundaries, faces[0].boundaries);
}

#[test]
fn welded_face_visiting_a_vertex_twice_is_split() {
    let eight = vec![
        eu(10, 0, 1, true),
        eu(11, 1, 2, true),
        eu(12, 2, 0, true),
        eu(13, 0, 3, true),
        eu(14, 3, 4, true),
        eu(15, 4, 0, true),
    ];
    let faces = vec![face(100, eight.clone())];
    let no = vec![vec![false; 6]; 6];
    let mut seq = IdSequence::new();
    let ww = welded_wires(&faces, &no, &no);
    assert_eq!(ww[0], vec![eight.clone()]);
    assert!(gap_repair_input(&ww[0]).is_none());
    let out = canonicalize_edges(&faces, &no, &no, &vec![None], &mut seq);
    // The two loops share vertex 0, so they stand as split.
    assert_eq!(out[0].id, 1);
    assert_eq!(out[0].boundaries, vec![eight[0..3].to_vec(), eight[3..6].to_vec()]);
}

#[test]
fn welded_face_with_a_gap_is_bridged_with_the_pairing_given() {
    let open = vec![eu(10, 0, 1, true), eu(11, 1, 2, true), eu(12, 2, 3, true)];
    let faces = vec![face(100, open.clone())];
    let no = vec![vec![false; 3]; 3];
    let ww = welded_wires(&faces, &no, &no);
    assert_eq!(gap_repair_input(&ww[0]), Some(vec![open.clone()]));
    let mut seq = IdSequence::new();
    let out = canonicalize_edges(&faces, &no, &no, &vec![Some(vec![(3, 0)])], &mut seq);
    // The gap edge takes identity 1, the new face 2.
    assert_eq!(out[0].id, 2);
    assert_eq!(out[0].boundaries, vec![vec![open[0], open[1], open[2], eu(1, 3, 0, true)]]);
    assert_eq!(current_sequence_value(&seq), 3);
    // Without a pairing the face is kept and nothing is drawn.
    let mut seq = IdSequence::new();
    let out = canonicalize_edges(&faces, &no, &no, &vec![None], &mut seq);
    assert_eq!(out[0].id, 100);
    assert_eq!(out[0].boundaries, faces[0].boundaries);
    assert_eq!(current_sequence_value(&seq), 1);
}
