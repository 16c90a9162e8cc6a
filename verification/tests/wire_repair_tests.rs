use truck_shapeops::classification::ShapesOpStatus::{And, Or, Unknown};
use truck_shapeops::splice::{merge_splice_wires, split_non_simple_wires};
use truck_shapeops::topology::EdgeUse;
use truck_shapeops::wire_repair::{
    drop_biangle_wires, embedded_wire_fix, has_multiway, is_biangle_wire, pre_face_status, remove_embedded_wires,
    split_wire_at_repeats, wires_are_disjoint,
};

/// A closed wire through the vertices in order, with edges numbered from `e0`.
fn polygon(vs: &[u64], e0: u64) -> Vec<EdgeUse> {
    (0..vs.len())
        .map(|k| EdgeUse { edge: e0 + k as u64, front: vs[k], back: vs[(k + 1) % vs.len()], forward: true })
        .collect()
}

#[test]
fn pre_face_status_takes_the_first_decided() {
    assert_eq!(pre_face_status(&[Unknown, Or, And]), Or);
    assert_eq!(pre_face_status(&[And, Or]), And);
    assert_eq!(pre_face_status(&[Unknown, Unknown]), Unknown);
    assert_eq!(pre_face_status(&[]), Unknown);
}

#[test]
fn disjointness_of_wires() {
    assert!(wires_are_disjoint(&vec![polygon(&[0, 1, 2], 0), polygon(&[3, 4, 5], 10)]));
    assert!(!wires_are_disjoint(&vec![polygon(&[0, 1, 2], 0), polygon(&[2, 4, 5], 10)]));
    assert!(wires_are_disjoint(&vec![polygon(&[0, 1, 2, 0, 3], 0)]));
}

#[test]
fn multiway_vertex_counts_occurrences() {
    assert!(!has_multiway(&vec![polygon(&[0, 1, 2], 0), polygon(&[0, 4, 5], 10)]));
    assert!(has_multiway(&vec![polygon(&[0, 1, 2], 0), polygon(&[0, 4, 5], 10), polygon(&[0, 6, 7], 20)]));
    assert!(has_multiway(&vec![polygon(&[0, 1, 0, 2], 0), polygon(&[0, 4, 5], 10)]));
}

#[test]
fn embedded_wires_are_removed() {
    let square = polygon(&[0, 1, 2, 3], 0);
    let triangle = polygon(&[0, 1, 2], 10);
    let other = polygon(&[3, 4, 5], 20);
    assert_eq!(remove_embedded_wires(&vec![square.clone(), triangle.clone(), other.clone()]), vec![square.clone(), other]);
    // Equal vertex sets: neither is strictly smaller.
    let same = polygon(&[2, 1, 0, 3], 30);
    assert_eq!(remove_embedded_wires(&vec![square.clone(), same.clone()]), vec![square, same]);
}

#[test]
fn embedded_fix_applies_to_pairwise_sharing() {
    let square = polygon(&[0, 1, 2, 3], 0);
    let triangle = polygon(&[0, 1, 2], 10);
    assert_eq!(embedded_wire_fix(&vec![square.clone(), triangle.clone()]), Some(vec![square.clone()]));
    // Disjoint wires need no fix.
    assert_eq!(embedded_wire_fix(&vec![square.clone(), polygon(&[7, 8, 9], 20)]), None);
    // A vertex shared three times is left alone.
    assert_eq!(embedded_wire_fix(&vec![square.clone(), triangle, polygon(&[0, 8, 9], 20)]), None);
    // Sharing without embedding leaves nothing to remove.
    assert_eq!(embedded_wire_fix(&vec![square, polygon(&[0, 5, 6], 20)]), None);
}

fn chain(vs: &[u64], e0: u64) -> Vec<EdgeUse> {
    (0..vs.len()).map(|k| EdgeUse { edge: e0 + k as u64, front: vs[k], back: vs[(k + 1) % vs.len()], forward: true }).collect()
}

fn starts_simple_and_closed(w: &[EdgeUse]) -> bool {
    let closed = (0..w.len()).all(|k| w[k].back == w[(k + 1) % w.len()].front);
    let mut fronts: Vec<u64> = w.iter().map(|u| u.front).collect();
    fronts.sort();
    fronts.dedup();
    closed && fronts.len() == w.len()
}

#[test]
fn biangle_wire_detection() {
    let biangle = vec![
        EdgeUse { edge: 7, front: 1, back: 0, forward: false },
        EdgeUse { edge: 7, front: 0, back: 1, forward: true },
    ];
    assert!(is_biangle_wire(&biangle));
    let normal = vec![
        EdgeUse { edge: 7, front: 0, back: 2, forward: true },
        EdgeUse { edge: 8, front: 2, back: 0, forward: true },
    ];
    assert!(!is_biangle_wire(&normal));
    assert!(!is_biangle_wire(&chain(&[0, 1, 2], 0)));
    assert!(!is_biangle_wire(&chain(&[0, 1], 0)[..1].to_vec()));
    let kept = drop_biangle_wires(&vec![chain(&[0, 1, 2], 0), biangle.clone(), normal.clone()]);
    assert_eq!(kept, vec![chain(&[0, 1, 2], 0), normal]);
}

#[test]
fn split_wire_recursive_figure_eight() {
    let wire = chain(&[0, 1, 2, 0, 3, 4], 0);
    let out = split_wire_at_repeats(&wire);
    assert_eq!(out.len(), 2);
    assert_eq!(out[0], wire[0..3].to_vec());
    assert_eq!(out[1], wire[3..6].to_vec());
    for w in &out {
        assert!(starts_simple_and_closed(w));
        assert!(w.len() >= 3);
    }
}

#[test]
fn split_wire_recursive_triple_visit() {
    let wire = chain(&[0, 1, 2, 0, 3, 4, 0, 5, 6], 0);
    let out = split_wire_at_repeats(&wire);
    assert_eq!(out.len(), 3);
    let mut edges: Vec<u64> = out.iter().flatten().map(|u| u.edge).collect();
    edges.sort();
    assert_eq!(edges, (0..9).collect::<Vec<u64>>());
    for w in &out {
        assert!(starts_simple_and_closed(w));
        assert!(!is_biangle_wire(w));
    }
}

#[test]
fn simple_wire_is_not_split() {
    let wire = chain(&[0, 1, 2, 3], 0);
    assert_eq!(split_wire_at_repeats(&wire), vec![wire.clone()]);
}

#[test]
fn touching_wires_are_spliced_and_split_again() {
    // Square 1-2-0-3 and triangle 4-0-5 meet at vertex 0.
    let w1 = chain(&[1, 2, 0, 3], 0);
    let w2 = chain(&[4, 0, 5], 10);
    let out = merge_splice_wires(&vec![w1.clone(), w2.clone()]);
    assert_eq!(out, vec![vec![w1[2], w1[3], w1[0], w1[1]], vec![w2[1], w2[2], w2[0]]]);
}

#[test]
fn wires_that_do_not_touch_are_kept_in_order() {
    let a = chain(&[0, 1, 2], 0);
    let b = chain(&[3, 4, 5], 10);
    let c = chain(&[6, 3, 7], 20);
    let out = merge_splice_wires(&vec![a.clone(), b.clone(), c.clone()]);
    // `a` touches nothing; `b` and `c` meet at vertex 3 and are rejoined.
    assert_eq!(out, vec![a, b.clone(), vec![c[1], c[2], c[0]]]);
}

#[test]
fn short_pieces_of_a_spliced_group_are_dropped() {
    let tri = chain(&[0, 1, 2], 0);
    let two = chain(&[0, 7], 10);
    assert_eq!(merge_splice_wires(&vec![tri.clone(), two]), vec![tri]);
    assert!(merge_splice_wires(&vec![]).is_empty());
}

#[test]
fn only_closed_wires_that_revisit_a_vertex_are_split() {
    let eight = chain(&[0, 1, 2, 0, 3, 4], 0);
    let simple = chain(&[5, 6, 7], 10);
    let (out, any) = split_non_simple_wires(&vec![simple.clone(), eight.clone()]);
    assert!(any);
    assert_eq!(out, vec![simple.clone(), eight[0..3].to_vec(), eight[3..6].to_vec()]);
    // An open wire that revisits a vertex is kept as it is.
    let open = eight[0..5].to_vec();
    let (out, any) = split_non_simple_wires(&vec![open.clone(), simple.clone()]);
    assert!(!any);
    assert_eq!(out, vec![open, simple]);
}
