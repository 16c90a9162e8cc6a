use truck_shapeops::gap_repair::{degree_one_vertices, fill_gaps_and_chain, rebuild_connected_wires, repair_with_gaps};
use truck_shapeops::id::{current_sequence_value, IdSequence};
use truck_shapeops::topology::EdgeUse;

fn eu(edge: u64, front: u64, back: u64, forward: bool) -> EdgeUse {
    EdgeUse { edge, front, back, forward }
}

#[test]
fn open_ends_are_found_in_increasing_order() {
    let wires = vec![vec![eu(0, 9, 1, true), eu(1, 1, 2, true)], vec![eu(2, 5, 6, true)]];
    assert_eq!(degree_one_vertices(&wires), vec![2, 5, 6, 9]);
}

#[test]
fn closed_wire_has_no_open_ends() {
    let wires = vec![vec![eu(0, 0, 1, true), eu(1, 1, 2, true), eu(2, 2, 0, true)]];
    assert!(degree_one_vertices(&wires).is_empty());
}

#[test]
fn vertex_met_three_times_is_not_an_open_end() {
    let wires = vec![vec![eu(0, 0, 1, true), eu(1, 1, 2, true), eu(2, 1, 3, true)]];
    assert_eq!(degree_one_vertices(&wires), vec![0, 2, 3]);
}

#[test]
fn single_gap_is_bridged_and_closes_the_wire() {
    let wires = vec![vec![eu(10, 0, 1, true), eu(11, 1, 2, true), eu(12, 2, 3, true)]];
    assert_eq!(degree_one_vertices(&wires), vec![0, 3]);
    let mut seq = IdSequence::new();
    let first_id = current_sequence_value(&seq);
    let out = fill_gaps_and_chain(&wires, &vec![(3, 0)], &mut seq).unwrap();
    assert_eq!(
        out,
        vec![vec![eu(10, 0, 1, true), eu(11, 1, 2, true), eu(12, 2, 3, true), eu(first_id, 3, 0, true)]]
    );
    assert_eq!(current_sequence_value(&seq), first_id + 1);
}

#[test]
fn uses_out_of_order_are_chained_by_their_vertices() {
    let wires = vec![vec![eu(0, 0, 1, true), eu(2, 2, 0, true), eu(1, 1, 2, true)]];
    let mut seq = IdSequence::new();
    let out = fill_gaps_and_chain(&wires, &vec![], &mut seq).unwrap();
    assert_eq!(out, vec![vec![eu(0, 0, 1, true), eu(1, 1, 2, true), eu(2, 2, 0, true)]]);
}

#[test]
fn use_met_at_its_back_is_turned_around() {
    let wires = vec![vec![eu(0, 0, 1, true), eu(1, 2, 1, true), eu(2, 2, 0, true)]];
    let mut seq = IdSequence::new();
    let out = fill_gaps_and_chain(&wires, &vec![], &mut seq).unwrap();
    assert_eq!(out, vec![vec![eu(0, 0, 1, true), eu(1, 1, 2, false), eu(2, 2, 0, true)]]);
}

#[test]
fn separate_loops_become_separate_wires() {
    let wires = vec![vec![eu(0, 0, 1, true), eu(2, 5, 6, true)], vec![eu(1, 1, 0, true), eu(3, 6, 5, true)]];
    let mut seq = IdSequence::new();
    let out = fill_gaps_and_chain(&wires, &vec![], &mut seq).unwrap();
    assert_eq!(
        out,
        vec![vec![eu(0, 0, 1, true), eu(1, 1, 0, true)], vec![eu(2, 5, 6, true), eu(3, 6, 5, true)]]
    );
}

#[test]
fn no_uses_gives_none_and_takes_no_identity() {
    let mut seq = IdSequence::new();
    let before = current_sequence_value(&seq);
    assert!(fill_gaps_and_chain(&vec![], &vec![(1, 2)], &mut seq).is_none());
    assert!(fill_gaps_and_chain(&vec![vec![]], &vec![], &mut seq).is_none());
    assert_eq!(current_sequence_value(&seq), before);
}

#[test]
fn gap_from_a_vertex_to_itself_gives_none() {
    let wires = vec![vec![eu(0, 0, 1, true), eu(1, 1, 0, true)]];
    let mut seq = IdSequence::new();
    assert!(fill_gaps_and_chain(&wires, &vec![(4, 4)], &mut seq).is_none());
}

#[test]
fn walk_that_gets_stuck_gives_none() {
    let wires = vec![vec![eu(0, 0, 1, true), eu(1, 1, 2, true)]];
    let mut seq = IdSequence::new();
    assert!(fill_gaps_and_chain(&wires, &vec![], &mut seq).is_none());
}

#[test]
fn two_gaps_take_consecutive_identities() {
    // Two open chains 0-1-2 and 3-4-5 closed into one loop by the gaps 2-3 and 5-0.
    let wires = vec![vec![eu(10, 0, 1, true), eu(11, 1, 2, true)], vec![eu(12, 3, 4, true), eu(13, 4, 5, true)]];
    assert_eq!(degree_one_vertices(&wires), vec![0, 2, 3, 5]);
    let mut seq = IdSequence::new();
    let a = current_sequence_value(&seq);
    let out = fill_gaps_and_chain(&wires, &vec![(2, 3), (5, 0)], &mut seq).unwrap();
    assert_eq!(
        out,
        vec![vec![
            eu(10, 0, 1, true),
            eu(11, 1, 2, true),
            eu(a, 2, 3, true),
            eu(12, 3, 4, true),
            eu(13, 4, 5, true),
            eu(a + 1, 5, 0, true),
        ]]
    );
    assert_eq!(current_sequence_value(&seq), a + 2);
}

#[test]
fn rebuilt_wires_take_edges_along_their_own_direction() {
    // Edge 0 runs from 0 to 1 although the wire meets it reversed.
    let wires = vec![vec![eu(2, 2, 0, true)], vec![eu(0, 1, 0, false), eu(1, 1, 2, true)]];
    let out = rebuild_connected_wires(&wires).unwrap();
    assert_eq!(out, vec![vec![eu(2, 2, 0, true), eu(0, 0, 1, true), eu(1, 1, 2, true)]]);
}

#[test]
fn rebuilding_fails_on_a_dangling_edge() {
    let wires = vec![vec![eu(0, 0, 1, true), eu(1, 1, 0, true), eu(2, 1, 5, true)]];
    assert!(rebuild_connected_wires(&wires).is_none());
    assert!(rebuild_connected_wires(&vec![]).is_none());
}

#[test]
fn repair_with_gaps_bridges_a_pairing_of_the_open_ends() {
    let wires = vec![vec![eu(10, 0, 1, true), eu(11, 1, 2, true), eu(12, 2, 3, true)]];
    let mut seq = IdSequence::new();
    let first_id = current_sequence_value(&seq);
    let out = repair_with_gaps(&wires, &vec![(3, 0)], &mut seq).unwrap();
    assert_eq!(
        out,
        vec![vec![eu(10, 0, 1, true), eu(11, 1, 2, true), eu(12, 2, 3, true), eu(first_id, 3, 0, true)]]
    );
}

#[test]
fn repair_with_gaps_refuses_an_odd_number_of_open_ends() {
    // Vertex 1 ends three uses; the open ends are 0, 2 and 3.
    let wires = vec![vec![eu(0, 0, 1, true), eu(1, 1, 2, true), eu(2, 1, 3, true)]];
    assert_eq!(degree_one_vertices(&wires).len(), 3);
    let mut seq = IdSequence::new();
    let before = current_sequence_value(&seq);
    assert!(repair_with_gaps(&wires, &vec![(0, 2)], &mut seq).is_none());
    assert_eq!(current_sequence_value(&seq), before);
}

#[test]
fn repair_with_gaps_refuses_gaps_that_miss_the_open_ends() {
    let wires = vec![vec![eu(10, 0, 1, true), eu(11, 1, 2, true), eu(12, 2, 3, true)]];
    let mut seq = IdSequence::new();
    let before = current_sequence_value(&seq);
    // A gap from an inner vertex, a repeated end, and a missing pairing.
    assert!(repair_with_gaps(&wires, &vec![(1, 0)], &mut seq).is_none());
    assert!(repair_with_gaps(&wires, &vec![(3, 0), (0, 3)], &mut seq).is_none());
    assert!(repair_with_gaps(&wires, &vec![], &mut seq).is_none());
    assert_eq!(current_sequence_value(&seq), before);
}

#[test]
fn repair_with_gaps_refuses_wires_without_edges() {
    let mut seq = IdSequence::new();
    assert!(repair_with_gaps(&vec![vec![]], &vec![], &mut seq).is_none());
}
