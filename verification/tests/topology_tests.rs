use truck_shapeops::open_loops::open_edge_loops;
use truck_shapeops::topology::{
    build_half_edge_table, diagnose_open_edges, edge_use_counts, find_non_simple_wires, is_simple,
    validate_euler_characteristic, wire_vertex_list, EdgeUse, FaceTopo, OpenEdgeInfo,
};

fn eu(edge: u64, front: u64, back: u64, forward: bool) -> EdgeUse {
    EdgeUse { edge, front, back, forward }
}

fn face(id: u64, wires: Vec<Vec<EdgeUse>>) -> FaceTopo {
    FaceTopo { id, boundaries: wires }
}

/// A triangle face over the given vertices, with edges `e0, e0+1, e0+2`.
fn triangle(id: u64, v: [u64; 3], e0: u64) -> FaceTopo {
    face(
        id,
        vec![vec![
            eu(e0, v[0], v[1], true),
            eu(e0 + 1, v[1], v[2], true),
            eu(e0 + 2, v[2], v[0], true),
        ]],
    )
}

/// The six faces of a unit cube, outward oriented: vertices 0..=3 at the
/// bottom, 4..=7 at the top; edges 0..=3 around the bottom, 4..=7 around the
/// top, 8..=11 upright.
fn cube_faces() -> Vec<FaceTopo> {
    vec![
        face(100, vec![vec![eu(3, 0, 3, false), eu(2, 3, 2, false), eu(1, 2, 1, false), eu(0, 1, 0, false)]]),
        face(101, vec![vec![eu(4, 4, 5, true), eu(5, 5, 6, true), eu(6, 6, 7, true), eu(7, 7, 4, true)]]),
        face(102, vec![vec![eu(0, 0, 1, true), eu(9, 1, 5, true), eu(4, 5, 4, false), eu(8, 4, 0, false)]]),
        face(103, vec![vec![eu(1, 1, 2, true), eu(10, 2, 6, true), eu(5, 6, 5, false), eu(9, 5, 1, false)]]),
        face(104, vec![vec![eu(2, 2, 3, true), eu(11, 3, 7, true), eu(6, 7, 6, false), eu(10, 6, 2, false)]]),
        face(105, vec![vec![eu(3, 3, 0, true), eu(8, 0, 4, true), eu(7, 4, 7, false), eu(11, 7, 3, false)]]),
    ]
}

#[test]
fn test_build_half_edge_table() {
    let faces = vec![triangle(1, [0, 1, 2], 0)];
    let table = build_half_edge_table(&faces);
    assert_eq!(table.len(), 3, "triangle has 3 edges");
    for he in &table {
        assert_eq!(he.face_idx, 0);
        assert_eq!(he.wire_idx, 0);
    }
    let indices: Vec<usize> = table.iter().map(|he| he.edge_idx).collect();
    assert_eq!(indices, vec![0, 1, 2]);
}

#[test]
fn test_build_half_edge_table_multi_face() {
    let f0 = triangle(1, [0, 1, 2], 0);
    let f1 = triangle(2, [0, 1, 3], 10);
    let faces = vec![f0, f1];
    let table = build_half_edge_table(&faces);
    assert_eq!(table.len(), 6, "two triangles = 6 edges");
    assert_eq!(table.iter().filter(|he| he.face_idx == 0).count(), 3);
    assert_eq!(table.iter().filter(|he| he.face_idx == 1).count(), 3);
}

#[test]
fn half_edge_table_keeps_uses_in_order() {
    let faces = cube_faces();
    let table = build_half_edge_table(&faces);
    assert_eq!(table.len(), 24);
    assert_eq!(table[4].face_idx, 1);
    assert_eq!(table[4].edge_idx, 0);
    assert_eq!(table[4].edge_use, eu(4, 4, 5, true));
    assert_eq!(table[23].edge_use, eu(11, 7, 3, false));
}

#[test]
fn euler_characteristic_unit_cube() {
    let shell = cube_faces();
    assert!(validate_euler_characteristic(&shell).is_ok(), "Unit cube should satisfy V-E+F=2");
}

#[test]
fn euler_characteristic_reports_counts_on_failure() {
    let mut shell = cube_faces();
    shell.remove(1);
    assert_eq!(validate_euler_characteristic(&shell), Err((8, 12, 5, 1)));
}

#[test]
fn wire_simplicity_unit_cube() {
    let shell = cube_faces();
    let non_simple = find_non_simple_wires(&shell);
    assert!(non_simple.is_empty(), "Unit cube should have all simple wires");
}

#[test]
fn figure_eight_wire_is_not_simple() {
    // 0 -> 1 -> 2 -> 0 -> 3 -> 4 -> 0: vertex 0 is visited twice.
    let wire = vec![
        eu(1, 0, 1, true),
        eu(2, 1, 2, true),
        eu(3, 2, 0, true),
        eu(4, 0, 3, true),
        eu(5, 3, 4, true),
        eu(6, 4, 0, true),
    ];
    assert!(!is_simple(&wire));
    assert_eq!(wire_vertex_list(&wire), vec![0, 1, 2, 0, 3, 4]);
    let shell = vec![cube_faces().remove(0), face(7, vec![wire])];
    assert_eq!(find_non_simple_wires(&shell), vec![(1, 0)]);
}

#[test]
fn open_wire_lists_its_last_vertex() {
    let wire = vec![eu(1, 0, 1, true), eu(2, 1, 2, true)];
    assert_eq!(wire_vertex_list(&wire), vec![0, 1, 2]);
    assert!(is_simple(&wire));
}

#[test]
fn closed_cube_has_no_open_edges() {
    assert!(diagnose_open_edges(&cube_faces()).is_empty());
}

#[test]
fn open_edges_of_a_cube_without_its_top() {
    let mut shell = cube_faces();
    shell.remove(1);
    let open = diagnose_open_edges(&shell);
    let expected: Vec<OpenEdgeInfo> = (4..8).map(|e| OpenEdgeInfo { edge: e, face_count: 1 }).collect();
    assert_eq!(open, expected);
}

#[test]
fn over_shared_edge_is_reported() {
    let mut shell = cube_faces();
    shell.push(face(200, vec![vec![eu(21, 9, 0, true), eu(0, 0, 1, true), eu(20, 1, 9, true)]]));
    let open = diagnose_open_edges(&shell);
    assert_eq!(
        open,
        vec![
            OpenEdgeInfo { edge: 0, face_count: 3 },
            OpenEdgeInfo { edge: 20, face_count: 1 },
            OpenEdgeInfo { edge: 21, face_count: 1 },
        ]
    );
}

#[test]
fn edge_use_counts_in_order_of_first_use() {
    let faces = vec![triangle(1, [0, 1, 2], 5), triangle(2, [1, 0, 3], 5)];
    let table = build_half_edge_table(&faces);
    let (edges, counts) = edge_use_counts(&table);
    assert_eq!(edges, vec![5, 6, 7]);
    assert_eq!(counts, vec![2, 2, 2]);
}

#[test]
fn open_loops_close_the_top_of_a_cube() {
    let mut shell = cube_faces();
    shell.remove(1);
    let loops = open_edge_loops(&shell).expect("the missing top is one loop");
    assert_eq!(loops, vec![vec![eu(4, 4, 5, true), eu(5, 5, 6, true), eu(6, 6, 7, true), eu(7, 7, 4, true)]]);
}

#[test]
fn open_loops_around_two_missing_faces() {
    let mut shell = cube_faces();
    shell.remove(2);
    shell.remove(1);
    let loops = open_edge_loops(&shell).expect("one hexagonal loop");
    assert_eq!(loops.len(), 1);
    let lp = &loops[0];
    assert_eq!(lp.len(), 6);
    for k in 0..lp.len() {
        assert_eq!(lp[k].back, lp[(k + 1) % lp.len()].front);
    }
    let mut edges: Vec<u64> = lp.iter().map(|u| u.edge).collect();
    edges.sort();
    assert_eq!(edges, vec![0, 5, 6, 7, 8, 9]);
}

#[test]
fn open_loops_of_two_separate_triangles() {
    let shell = vec![triangle(1, [0, 1, 2], 0), triangle(2, [3, 4, 5], 3)];
    let loops = open_edge_loops(&shell).expect("two loops");
    assert_eq!(
        loops,
        vec![
            vec![eu(0, 1, 0, false), eu(2, 0, 2, false), eu(1, 2, 1, false)],
            vec![eu(3, 4, 3, false), eu(5, 3, 5, false), eu(4, 5, 4, false)],
        ]
    );
}

#[test]
fn open_loops_none_for_closed_shell() {
    assert!(open_edge_loops(&cube_faces()).is_none());
}

#[test]
fn open_loops_none_when_a_vertex_is_shared_by_four_open_edges() {
    // Two triangles meeting at vertex 0 only.
    let shell = vec![triangle(1, [0, 1, 2], 0), triangle(2, [0, 3, 4], 3)];
    assert!(open_edge_loops(&shell).is_none());
}

#[test]
fn open_loops_none_when_the_open_edges_run_against_each_other() {
    // The open edges 0-1, 1-2 and 0-2 meet two at each vertex, but the last
    // runs the wrong way: every walk gets stuck, so no loop results.
    let shell = vec![face(1, vec![vec![eu(0, 0, 1, true), eu(1, 1, 2, true), eu(2, 0, 2, true)]])];
    assert!(open_edge_loops(&shell).is_none());
}

#[test]
fn open_loops_keep_the_walk_that_closes() {
    // A consistent triangle of open edges and, apart from it, a pair of open
    // edges that run the same way: only the triangle closes.
    let shell = vec![
        triangle(1, [0, 1, 2], 0),
        face(2, vec![vec![eu(10, 5, 6, true), eu(11, 5, 6, true)]]),
    ];
    let loops = open_edge_loops(&shell).expect("the triangle closes");
    assert_eq!(loops, vec![vec![eu(0, 1, 0, false), eu(2, 0, 2, false), eu(1, 2, 1, false)]]);
}
