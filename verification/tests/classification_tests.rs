use truck_shapeops::classification::ShapesOpStatus::{And, Or, Unknown};
use truck_shapeops::classification::{
    classify_by_edge_neighbors, difference_faces, inverse_face, reclassify_contained_faces, route_unknown_fragment, settle_unknown_fragments, CoplanarAction,
    FacesClassification,
    FragmentRoute, ShapesOpStatus,
};
use truck_shapeops::diagnostics::{BooleanStageError, EdgeNeighborReport};
use truck_shapeops::reach::reachable_from;
use truck_shapeops::topology::{EdgeUse, FaceTopo};

fn eu(edge: u64, front: u64, back: u64, forward: bool) -> EdgeUse {
    EdgeUse { edge, front, back, forward }
}

fn face(id: u64, wire: Vec<EdgeUse>) -> FaceTopo {
    FaceTopo { id, boundaries: vec![wire] }
}

/// The six faces of a unit cube (bottom, top, front, right, back, left),
/// outward oriented, with identities 100..=105.
fn cube_faces() -> Vec<FaceTopo> {
    vec![
        face(100, vec![eu(3, 0, 3, false), eu(2, 3, 2, false), eu(1, 2, 1, false), eu(0, 1, 0, false)]),
        face(101, vec![eu(4, 4, 5, true), eu(5, 5, 6, true), eu(6, 6, 7, true), eu(7, 7, 4, true)]),
        face(102, vec![eu(0, 0, 1, true), eu(9, 1, 5, true), eu(4, 5, 4, false), eu(8, 4, 0, false)]),
        face(103, vec![eu(1, 1, 2, true), eu(10, 2, 6, true), eu(5, 6, 5, false), eu(9, 5, 1, false)]),
        face(104, vec![eu(2, 2, 3, true), eu(11, 3, 7, true), eu(6, 7, 6, false), eu(10, 6, 2, false)]),
        face(105, vec![eu(3, 3, 0, true), eu(8, 0, 4, true), eu(7, 4, 7, false), eu(11, 7, 3, false)]),
    ]
}

fn ids(faces: &[FaceTopo]) -> Vec<u64> {
    faces.iter().map(|f| f.id).collect()
}

fn classified(statuses: [ShapesOpStatus; 6]) -> FacesClassification {
    let mut fc = FacesClassification::new();
    for (f, s) in cube_faces().into_iter().zip(statuses) {
        fc.push(f, s);
    }
    fc
}

#[test]
fn and_or_unknown_splits_in_insertion_order() {
    let fc = classified([Or, And, Unknown, And, Or, Unknown]);
    let [and, or, unknown] = fc.and_or_unknown();
    assert_eq!(ids(&and), vec![101, 103]);
    assert_eq!(ids(&or), vec![100, 104]);
    assert_eq!(ids(&unknown), vec![102, 105]);
}

#[test]
fn integrate_by_component_takes_the_majority_status() {
    // Bottom and front are And, top is Or; the three other sides form one
    // unknown component whose boundary touches the And faces' boundary five
    // times and the Or faces' boundary three times.
    let mut fc = classified([And, Or, And, Unknown, Unknown, Unknown]);
    fc.integrate_by_component();
    let [and, or, unknown] = fc.and_or_unknown();
    assert_eq!(ids(&and), vec![100, 102, 103, 104, 105]);
    assert_eq!(ids(&or), vec![101]);
    assert!(unknown.is_empty());
}

#[test]
fn integrate_by_component_leaves_a_tie_unknown() {
    let mut fc = classified([And, Or, Unknown, Unknown, Unknown, Unknown]);
    fc.integrate_by_component();
    let [and, or, unknown] = fc.and_or_unknown();
    assert_eq!(ids(&and), vec![100]);
    assert_eq!(ids(&or), vec![101]);
    assert_eq!(ids(&unknown), vec![102, 103, 104, 105]);
}

#[test]
fn integrate_by_component_decides_components_separately() {
    // The front is one unknown component, touching the And boundary three
    // times and the Or boundary once; an isolated triangle is another,
    // touching neither, and stays unknown.
    let mut fc = classified([And, Or, Unknown, And, Or, And]);
    fc.push(face(300, vec![eu(50, 20, 21, true), eu(51, 21, 22, true), eu(52, 22, 20, true)]), Unknown);
    fc.integrate_by_component();
    let [and, or, unknown] = fc.and_or_unknown();
    assert_eq!(ids(&and), vec![100, 102, 103, 105]);
    assert_eq!(ids(&or), vec![101, 104]);
    assert_eq!(ids(&unknown), vec![300]);
}

#[test]
fn edge_neighbors_resolve_by_vote() {
    let cube = cube_faces();
    let mut and_shell = vec![cube[0].clone()];
    let mut or_shell = vec![cube[1].clone(), cube[4].clone()];
    let mut report = EdgeNeighborReport::default();
    let r = classify_by_edge_neighbors(vec![cube[3].clone()], &mut and_shell, &mut or_shell, &mut report);
    assert!(r.is_ok());
    assert_eq!(ids(&and_shell), vec![100]);
    assert_eq!(ids(&or_shell), vec![101, 104, 103]);
    assert_eq!(report.faces_entered, 1);
    assert_eq!(report.rounds_executed, 1);
    assert_eq!(report.faces_resolved, 1);
}

#[test]
fn edge_neighbors_prefer_and_on_tie_and_fail_on_isolated_faces() {
    let cube = cube_faces();
    let mut and_shell = vec![cube[0].clone()];
    let mut or_shell = vec![cube[1].clone()];
    let isolated = face(300, vec![eu(50, 20, 21, true), eu(51, 21, 22, true), eu(52, 22, 20, true)]);
    let mut report = EdgeNeighborReport::default();
    let r = classify_by_edge_neighbors(vec![cube[2].clone(), isolated], &mut and_shell, &mut or_shell, &mut report);
    assert!(matches!(r, Err(BooleanStageError::Classification)));
    assert_eq!(ids(&and_shell), vec![100, 102]);
    assert_eq!(ids(&or_shell), vec![101]);
    assert_eq!(report.faces_entered, 2);
    assert_eq!(report.rounds_executed, 2);
    assert_eq!(report.faces_resolved, 1);
}

#[test]
fn edge_neighbors_propagate_over_rounds() {
    let cube = cube_faces();
    let mut and_shell = vec![cube[0].clone()];
    let mut or_shell: Vec<FaceTopo> = Vec::new();
    let mut report = EdgeNeighborReport::default();
    // The top touches nothing classified until the sides have joined.
    let r = classify_by_edge_neighbors(
        vec![cube[1].clone(), cube[2].clone(), cube[3].clone()],
        &mut and_shell,
        &mut or_shell,
        &mut report,
    );
    assert!(r.is_ok());
    assert_eq!(ids(&and_shell), vec![100, 102, 103, 101]);
    assert!(or_shell.is_empty());
    assert_eq!(report.rounds_executed, 2);
    assert_eq!(report.faces_resolved, 3);
}

#[test]
fn empty_unresolved_runs_no_round() {
    let mut and_shell: Vec<FaceTopo> = Vec::new();
    let mut or_shell: Vec<FaceTopo> = Vec::new();
    let mut report = EdgeNeighborReport::default();
    assert!(classify_by_edge_neighbors(Vec::new(), &mut and_shell, &mut or_shell, &mut report).is_ok());
    assert_eq!(report.rounds_executed, 0);
}

#[test]
fn reachable_from_follows_arcs() {
    let adj = vec![vec![1], vec![2], vec![], vec![0]];
    let (visited, count) = reachable_from(&adj, 0);
    assert_eq!(visited, vec![true, true, true, false]);
    assert_eq!(count, 3);
    let (visited, count) = reachable_from(&adj, 3);
    assert_eq!(visited, vec![true, true, true, true]);
    assert_eq!(count, 4);
}

#[test]
fn reset_overlapping_coplanar_sets_listed_faces_unknown() {
    let mut fc = classified([And, Or, And, Or, And, Or]);
    fc.reset_overlapping_coplanar(&[102, 105, 999]);
    let [and, or, unknown] = fc.and_or_unknown();
    assert_eq!(ids(&and), vec![100, 104]);
    assert_eq!(ids(&or), vec![101, 103]);
    assert_eq!(ids(&unknown), vec![102, 105]);
}

#[test]
fn coplanar_test_decides_before_the_inside_count() {
    assert_eq!(route_unknown_fragment(Some(CoplanarAction::Remove), Some(1)), FragmentRoute::Removed);
    assert_eq!(route_unknown_fragment(Some(CoplanarAction::Or), Some(1)), FragmentRoute::Or);
    assert_eq!(route_unknown_fragment(Some(CoplanarAction::And), None), FragmentRoute::And);
    assert_eq!(route_unknown_fragment(None, Some(1)), FragmentRoute::And);
    assert_eq!(route_unknown_fragment(None, Some(0)), FragmentRoute::Or);
    assert_eq!(route_unknown_fragment(None, Some(3)), FragmentRoute::Or);
    assert_eq!(route_unknown_fragment(None, None), FragmentRoute::Unresolved);
}

#[test]
fn settled_fragments_join_in_order_and_the_report_stays() {
    let cube = cube_faces();
    let mut and_shell = vec![cube[0].clone()];
    let mut or_shell = vec![cube[1].clone()];
    let mut report = EdgeNeighborReport::default();
    let unknown = vec![cube[2].clone(), cube[3].clone(), cube[4].clone(), cube[5].clone()];
    let coplanar = vec![Some(CoplanarAction::Remove), Some(CoplanarAction::And), None, None];
    let inside = vec![None, None, Some(1), Some(2)];
    let r = settle_unknown_fragments(unknown, &coplanar, &inside, &mut and_shell, &mut or_shell, &mut report);
    assert!(r.is_ok());
    assert_eq!(ids(&and_shell), vec![100, 103, 104]);
    assert_eq!(ids(&or_shell), vec![101, 105]);
    assert_eq!(report.faces_entered, 0);
}

#[test]
fn unresolved_fragments_go_through_edge_neighbors() {
    let cube = cube_faces();
    let mut and_shell = vec![cube[0].clone()];
    let mut or_shell = vec![cube[1].clone(), cube[4].clone()];
    let mut report = EdgeNeighborReport::default();
    let r = settle_unknown_fragments(vec![cube[3].clone()], &vec![None], &vec![None], &mut and_shell, &mut or_shell, &mut report);
    assert!(r.is_ok());
    assert_eq!(ids(&or_shell), vec![101, 104, 103]);
    assert_eq!(report.faces_entered, 1);
    assert_eq!(report.faces_resolved, 1);
}

#[test]
fn or_faces_on_contained_edges_move_to_and() {
    let cube = cube_faces();
    // The contained face is the bottom of the cube; an Or face that runs on
    // its edges only is that face itself.
    let contained = vec![cube[0].clone()];
    let copy = face(200, vec![eu(0, 0, 1, true), eu(1, 1, 2, true), eu(2, 2, 3, true), eu(3, 3, 0, true)]);
    let empty = FaceTopo { id: 201, boundaries: vec![vec![]] };
    let mut or_faces = vec![cube[1].clone(), copy, cube[2].clone(), empty];
    let mut and_faces = vec![cube[5].clone()];
    reclassify_contained_faces(&mut or_faces, &mut and_faces, &contained);
    assert_eq!(ids(&or_faces), vec![101, 102, 201]);
    assert_eq!(ids(&and_faces), vec![105, 200]);
}

#[test]
fn turning_a_face_over_reverses_its_wires() {
    let f = face(7, vec![eu(0, 0, 1, true), eu(1, 1, 2, false), eu(2, 2, 0, true)]);
    let g = inverse_face(&f);
    assert_eq!(g.id, 7);
    assert_eq!(g.boundaries, vec![vec![eu(2, 0, 2, false), eu(1, 2, 1, true), eu(0, 1, 0, false)]]);
    let h = inverse_face(&g);
    assert_eq!(h.boundaries, f.boundaries);
}

#[test]
fn difference_takes_or_faces_then_turned_and_faces() {
    let cube = cube_faces();
    let out = difference_faces(&[cube[0].clone(), cube[1].clone()], &[cube[2].clone()]);
    assert_eq!(ids(&out), vec![100, 101, 102]);
    assert_eq!(out[0].boundaries, cube[0].boundaries);
    assert_eq!(out[2].boundaries, inverse_face(&cube[2]).boundaries);
}
