use std::collections::HashMap;
use truck_shapeops::id::{current_sequence_value, IdSequence};
use truck_shapeops::topology::{EdgeUse, FaceTopo};
use truck_shapeops::vertex_heal::heal_faces;

fn eu(edge: u64, front: u64, back: u64, forward: bool) -> EdgeUse {
    EdgeUse { edge, front, back, forward }
}

fn face(id: u64, wire: Vec<EdgeUse>) -> FaceTopo {
    FaceTopo { id, boundaries: vec![wire] }
}

#[test]
fn nothing_to_merge_changes_nothing() {
    let faces = vec![face(100, vec![eu(0, 0, 1, true), eu(1, 1, 2, true), eu(2, 2, 0, true)])];
    let mut seq = IdSequence::new();
    let healed = heal_faces(&faces, &HashMap::new(), &mut seq);
    assert_eq!(healed[0].id, 100);
    assert_eq!(healed[0].boundaries, faces[0].boundaries);
    assert_eq!(current_sequence_value(&seq), 1);
}

#[test]
fn merged_vertices_move_uses_onto_new_edges() {
    // The bottom of a cube, and a top whose vertices 14..=17 coincide with
    // 4..=7 of the sides.
    let faces = vec![
        face(100, vec![eu(3, 0, 3, false), eu(2, 3, 2, false), eu(1, 2, 1, false), eu(0, 1, 0, false)]),
        face(101, vec![eu(24, 14, 15, true), eu(25, 15, 16, true), eu(26, 16, 17, false), eu(27, 17, 14, true)]),
    ];
    let unify: HashMap<u64, u64> = [(14, 4), (15, 5), (16, 6), (17, 7)].into_iter().collect();
    let mut seq = IdSequence::new();
    let healed = heal_faces(&faces, &unify, &mut seq);
    // Every face that stays closed is made anew; the bottom first.
    assert_eq!(healed[0].id, 1);
    assert_eq!(healed[0].boundaries, faces[0].boundaries);
    assert_eq!(
        healed[1].boundaries,
        vec![vec![eu(2, 4, 5, true), eu(3, 5, 6, true), eu(4, 6, 7, false), eu(5, 7, 4, true)]]
    );
    assert_eq!(healed[1].id, 6);
    assert_eq!(current_sequence_value(&seq), 7);
}

#[test]
fn collapsing_use_is_dropped() {
    let faces = vec![face(100, vec![eu(0, 0, 1, true), eu(1, 1, 2, true), eu(2, 2, 0, true)])];
    let unify: HashMap<u64, u64> = [(1, 0)].into_iter().collect();
    let mut seq = IdSequence::new();
    let healed = heal_faces(&faces, &unify, &mut seq);
    assert_eq!(healed[0].boundaries, vec![vec![eu(1, 0, 2, true), eu(2, 2, 0, true)]]);
    assert_eq!(healed[0].id, 2);
}

#[test]
fn face_left_open_keeps_its_wires_and_identity() {
    // A wire that is not closed stays open after merging: the face keeps its
    // wires and identity.
    let faces = vec![face(100, vec![eu(0, 0, 1, true), eu(1, 1, 2, true)])];
    let unify: HashMap<u64, u64> = [(1, 9)].into_iter().collect();
    let mut seq = IdSequence::new();
    let healed = heal_faces(&faces, &unify, &mut seq);
    assert_eq!(healed[0].id, 100);
    assert_eq!(healed[0].boundaries, faces[0].boundaries);
    // The two new edges were still taken from the sequence.
    assert_eq!(current_sequence_value(&seq), 3);
}
