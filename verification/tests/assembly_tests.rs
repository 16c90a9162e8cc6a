use truck_shapeops::assembly::{
    apply_pairings, assemble_by_pairing, edge_group_key, group_by_vertex_pair, groups_are_disjoint, pair_edge_groups,
};
use truck_shapeops::assembly::assemble_shell_radial;
use truck_shapeops::diagnostics::BooleanStageError;
use truck_shapeops::id::{current_sequence_value, IdSequence};
use truck_shapeops::topology::{
    build_half_edge_table, diagnose_open_edges, validate_euler_characteristic, EdgeUse, FaceTopo,
};

fn eu(edge: u64, front: u64, back: u64, forward: bool) -> EdgeUse {
    EdgeUse { edge, front, back, forward }
}

fn face(id: u64, wire: Vec<EdgeUse>) -> FaceTopo {
    FaceTopo { id, boundaries: vec![wire] }
}

const P0: (i64, i64, i64) = (0, 0, 0);
const P1: (i64, i64, i64) = (100, 0, 0);
const P2: (i64, i64, i64) = (50, 100, 0);
const P3: (i64, i64, i64) = (50, -100, 0);

/// Two triangles over the same geometric edge P0-P1, each with its own edge
/// for it: edges 0, 1, 2 and 10, 11, 12.
fn two_triangles() -> Vec<FaceTopo> {
    vec![
        face(1, vec![eu(0, 0, 1, true), eu(1, 1, 2, true), eu(2, 2, 0, true)]),
        face(2, vec![eu(10, 1, 0, true), eu(11, 0, 3, true), eu(12, 3, 1, true)]),
    ]
}

fn two_triangle_ends() -> Vec<((i64, i64, i64), (i64, i64, i64))> {
    vec![(P0, P1), (P1, P2), (P2, P0), (P1, P0), (P0, P3), (P3, P1)]
}

#[test]
fn test_quantized_pos_symmetry() {
    let qa = (0, 0, 0);
    let qb = (100, 0, 0);
    let key1 = edge_group_key(qa, qb);
    let key2 = edge_group_key(qb, qa);
    assert_eq!(key1, key2);
}

#[test]
fn test_group_by_vertex_pair() {
    let groups = group_by_vertex_pair(&two_triangle_ends());
    let pair_counts: Vec<usize> = groups.iter().map(|g| g.len()).collect();
    assert_eq!(pair_counts.iter().filter(|&&n| n == 2).count(), 1);
    assert_eq!(pair_counts.iter().filter(|&&n| n == 1).count(), 4);
}

#[test]
fn groups_come_in_key_order() {
    let groups = group_by_vertex_pair(&two_triangle_ends());
    assert_eq!(groups, vec![vec![4], vec![2], vec![0, 3], vec![5], vec![1]]);
    assert!(groups_are_disjoint(&groups, 6));
}

#[test]
fn group_key_puts_the_smaller_position_first() {
    assert_eq!(edge_group_key(P1, P0), (P0, P1));
    assert_eq!(edge_group_key(P2, P3), (P3, P2));
    assert_eq!(edge_group_key(P2, P2), (P2, P2));
}

#[test]
fn pairing_fails_on_the_first_open_group() {
    let faces = two_triangles();
    let table = build_half_edge_table(&faces);
    let groups = group_by_vertex_pair(&two_triangle_ends());
    let same_dir: Vec<Vec<bool>> = groups.iter().map(|g| vec![false; g.len()]).collect();
    assert_eq!(pair_edge_groups(&table, &groups, &same_dir), Err(4));
}

#[test]
fn second_of_a_pair_takes_the_first_edge() {
    let faces = two_triangles();
    let table = build_half_edge_table(&faces);
    let groups = vec![vec![0, 3]];
    let same_dir = vec![vec![false, false]];
    let rep = pair_edge_groups(&table, &groups, &same_dir).unwrap();
    assert_eq!(rep, vec![None, None, None, Some((0, false)), None, None]);
    let mut seq = IdSequence::new();
    let rebuilt = apply_pairings(&faces, &rep, &mut seq);
    assert_eq!(rebuilt[0].id, 1);
    assert_eq!(rebuilt[0].boundaries, faces[0].boundaries);
    // The rebuilt face is a new face with the next sequential identity.
    assert_eq!(rebuilt[1].id, 1);
    assert_eq!(current_sequence_value(&seq), 2);
    assert_eq!(rebuilt[1].boundaries, vec![vec![eu(0, 1, 0, false), eu(11, 0, 3, true), eu(12, 3, 1, true)]]);
}

#[test]
fn assemble_by_pairing_shares_the_edge() {
    let faces = two_triangles();
    let mut seq = IdSequence::new();
    let assembled = assemble_by_pairing(&faces, &vec![vec![0, 3]], &vec![vec![false, false]], &mut seq).unwrap();
    assert_eq!(assembled[0].boundaries, faces[0].boundaries);
    assert_eq!(assembled[1].boundaries[0][0].edge, 0);
    let table = build_half_edge_table(&assembled);
    assert_eq!(table.iter().filter(|r| r.edge_use.edge == 0).count(), 2);
}

#[test]
fn same_edge_pair_changes_nothing() {
    let faces = vec![
        face(1, vec![eu(0, 0, 1, true), eu(1, 1, 2, true), eu(2, 2, 0, true)]),
        face(2, vec![eu(0, 1, 0, false), eu(11, 0, 3, true), eu(12, 3, 1, true)]),
    ];
    let table = build_half_edge_table(&faces);
    let rep = pair_edge_groups(&table, &vec![vec![0, 3]], &vec![vec![false, false]]).unwrap();
    assert!(rep.iter().all(|r| r.is_none()));
}

#[test]
fn radial_groups_pair_neighbours_in_order() {
    // Four half-edges around one geometric edge, given in radial order
    // 0, 3, 4, 5: pairs (0, 3) and (4, 5); an odd one out stays as it is.
    let faces = vec![
        face(1, vec![eu(0, 0, 1, true), eu(1, 1, 2, true), eu(2, 2, 0, true)]),
        face(2, vec![eu(10, 1, 0, true), eu(20, 0, 1, true), eu(30, 1, 0, true)]),
    ];
    let table = build_half_edge_table(&faces);
    let rep = pair_edge_groups(&table, &vec![vec![0, 3, 4, 5]], &vec![vec![false, true, false, true]]).unwrap();
    assert_eq!(rep, vec![None, None, None, Some((0, false)), None, Some((4, false))]);
    let rep = pair_edge_groups(&table, &vec![vec![0, 3, 4]], &vec![vec![true, false, false]]).unwrap();
    assert_eq!(rep, vec![None, None, None, Some((0, true)), None, None]);
}

#[test]
fn unclosed_result_keeps_the_old_wires() {
    // The second triangle runs over other vertices, so taking edge 0 breaks
    // its chain: it keeps its own wire.
    let faces = vec![
        face(1, vec![eu(0, 0, 1, true), eu(1, 1, 2, true), eu(2, 2, 0, true)]),
        face(2, vec![eu(10, 11, 10, true), eu(11, 10, 3, true), eu(12, 3, 11, true)]),
    ];
    let table = build_half_edge_table(&faces);
    let rep = pair_edge_groups(&table, &vec![vec![0, 3]], &vec![vec![false, false]]).unwrap();
    let mut seq = IdSequence::new();
    let rebuilt = apply_pairings(&faces, &rep, &mut seq);
    assert_eq!(rebuilt[1].boundaries, faces[1].boundaries);
    assert_eq!(rebuilt[1].id, 2);
    assert_eq!(current_sequence_value(&seq), 1);
}

#[test]
fn overlapping_groups_are_detected() {
    assert!(!groups_are_disjoint(&vec![vec![0, 3], vec![3]], 6));
    assert!(!groups_are_disjoint(&vec![vec![1, 1]], 6));
    assert!(groups_are_disjoint(&vec![vec![1], vec![0, 2]], 3));
}

/// A unit cube whose faces share their vertices 0..=7 but each has four edges
/// of its own, as a boolean operation leaves them.
fn shared_vertex_cube() -> Vec<FaceTopo> {
    let quads: [[u64; 4]; 6] = [[0, 3, 2, 1], [4, 5, 6, 7], [0, 1, 5, 4], [2, 3, 7, 6], [0, 4, 7, 3], [1, 2, 6, 5]];
    quads
        .iter()
        .enumerate()
        .map(|(f, q)| {
            let wire = (0..4).map(|k| eu((10 * f + k) as u64, q[k], q[(k + 1) % 4], true)).collect();
            face(100 + f as u64, wire)
        })
        .collect()
}

fn corner(v: u64) -> (i64, i64, i64) {
    ((v & 1) as i64 ^ ((v >> 1) & 1) as i64, ((v >> 1) & 1) as i64, ((v >> 2) & 1) as i64)
}

#[test]
fn shared_vertex_cube_assembles_into_a_closed_shell() {
    let faces = shared_vertex_cube();
    assert!(validate_euler_characteristic(&faces).is_err());
    let table = build_half_edge_table(&faces);
    let ends: Vec<_> = table.iter().map(|r| (corner(r.edge_use.front), corner(r.edge_use.back))).collect();
    let groups = group_by_vertex_pair(&ends);
    assert_eq!(groups.len(), 12);
    assert!(groups.iter().all(|g| g.len() == 2));
    let same_dir: Vec<Vec<bool>> = groups
        .iter()
        .map(|g| (0..g.len()).map(|i| ends[g[i]].0 == ends[g[(i + 1) % g.len()]].0).collect())
        .collect();
    let mut seq = IdSequence::new();
    let shell = assemble_by_pairing(&faces, &groups, &same_dir, &mut seq).unwrap();
    assert_eq!(shell.len(), 6);
    assert!(diagnose_open_edges(&shell).is_empty());
    assert_eq!(validate_euler_characteristic(&shell), Ok(()));
}

#[test]
fn assembling_no_faces_changes_nothing() {
    let mut seq = IdSequence::new();
    let shell = assemble_by_pairing(&[], &vec![], &vec![], &mut seq).unwrap();
    assert!(shell.is_empty());
    assert_eq!(current_sequence_value(&seq), 1);
}

#[test]
fn test_empty_faces() {
    let mut seq = IdSequence::new();
    let r = assemble_shell_radial(&[], &vec![], &vec![], &mut seq);
    assert_eq!(assembly_error(r), "radial: no faces");
    assert_eq!(current_sequence_value(&seq), 1);
}

#[test]
fn radial_assembly_counts_open_edges() {
    let mut faces = shared_vertex_cube();
    faces.pop();
    let table = build_half_edge_table(&faces);
    let ends: Vec<_> = table.iter().map(|r| (corner(r.edge_use.front), corner(r.edge_use.back))).collect();
    let groups = group_by_vertex_pair(&ends);
    let same_dir: Vec<Vec<bool>> = groups.iter().map(|g| vec![true; g.len()]).collect();
    let mut seq = IdSequence::new();
    let r = assemble_shell_radial(&faces, &groups, &same_dir, &mut seq);
    assert_eq!(assembly_error(r), "radial: 4 open edges (unpaired half-edges)");
    let faces = vec![face(7, vec![])];
    let r = assemble_shell_radial(&faces, &vec![], &vec![], &mut seq);
    assert_eq!(assembly_error(r), "radial: no edges in faces");
}

#[test]
fn radial_assembly_closes_the_cube() {
    let faces = shared_vertex_cube();
    let table = build_half_edge_table(&faces);
    let ends: Vec<_> = table.iter().map(|r| (corner(r.edge_use.front), corner(r.edge_use.back))).collect();
    let groups = group_by_vertex_pair(&ends);
    let same_dir: Vec<Vec<bool>> = groups
        .iter()
        .map(|g| (0..g.len()).map(|i| ends[g[i]].0 == ends[g[(i + 1) % g.len()]].0).collect())
        .collect();
    let mut seq = IdSequence::new();
    let shell = assemble_shell_radial(&faces, &groups, &same_dir, &mut seq).unwrap();
    assert!(diagnose_open_edges(&shell).is_empty());
}

fn assembly_error(r: Result<Vec<FaceTopo>, BooleanStageError>) -> String {
    match r {
        Err(BooleanStageError::ShellAssembly(t)) => t,
        _ => panic!("expected a shell assembly error"),
    }
}
