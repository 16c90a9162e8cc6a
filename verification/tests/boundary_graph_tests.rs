use truck_shapeops::classification::ShapesOpStatus::{And, Or, Unknown};
use std::collections::HashMap;
use truck_shapeops::boundary_graph::{fragment_status, BoundaryWireTopo, CycleRole, FaceBoundaryGraph, NO_NEXT};
use truck_shapeops::classification::ShapesOpStatus;
use truck_shapeops::topology::EdgeUse;

fn eu(edge: u64, front: u64, back: u64, forward: bool) -> EdgeUse {
    EdgeUse { edge, front, back, forward }
}

/// A closed wire through the vertices in order, with fresh edges numbered
/// from `e0`.
fn polygon(vs: &[u64], e0: u64) -> Vec<EdgeUse> {
    (0..vs.len()).map(|k| eu(e0 + k as u64, vs[k], vs[(k + 1) % vs.len()], true)).collect()
}

/// Each vertex's outgoing half-edges sorted counter-clockwise by departure
/// angle in the plane, as the caller computes them before building.
fn radial_orders(g: &FaceBoundaryGraph, pos: &HashMap<u64, (f64, f64)>) -> Vec<Vec<usize>> {
    (0..g.vertices.len())
        .map(|vi| {
            let (ox, oy) = pos[&g.vertices[vi].vertex];
            let mut angles: Vec<(usize, f64)> = g.vertices[vi]
                .outgoing
                .iter()
                .map(|&h| {
                    let dest = g.half_edges[g.half_edges[h].twin].origin;
                    let (dx, dy) = pos[&g.vertices[dest].vertex];
                    (h, (dy - oy).atan2(dx - ox))
                })
                .collect();
            angles.sort_by(|a, b| a.1.partial_cmp(&b.1).unwrap());
            angles.iter().map(|&(h, _)| h).collect()
        })
        .collect()
}

fn build(loops: &[BoundaryWireTopo], pos: &HashMap<u64, (f64, f64)>) -> Option<FaceBoundaryGraph> {
    let orders = radial_orders(&FaceBoundaryGraph::unlinked_from_loops(loops)?, pos);
    FaceBoundaryGraph::from_loops(loops, &orders)
}

fn signed_area(g: &FaceBoundaryGraph, cycle: &[usize], pos: &HashMap<u64, (f64, f64)>) -> f64 {
    let pts: Vec<(f64, f64)> = cycle.iter().map(|&h| pos[&g.vertices[g.half_edges[h].origin].vertex]).collect();
    let n = pts.len();
    let mut sum = 0.0;
    for i in 0..n {
        let j = (i + 1) % n;
        sum += (pts[j].0 + pts[i].0) * (pts[j].1 - pts[i].1);
    }
    sum / 2.0
}

fn unit_square_positions() -> HashMap<u64, (f64, f64)> {
    let mut pos = HashMap::new();
    pos.insert(0, (0.0, 0.0));
    pos.insert(1, (1.0, 0.0));
    pos.insert(2, (1.0, 1.0));
    pos.insert(3, (0.0, 1.0));
    pos
}

#[test]
fn simple_quad_one_cycle() {
    let loops = vec![BoundaryWireTopo { wire: polygon(&[0, 1, 2, 3], 0), status: ShapesOpStatus::Unknown }];
    let graph = build(&loops, &unit_square_positions());
    assert!(graph.is_some(), "FBG construction should succeed");
    let mut graph = graph.unwrap();
    assert_eq!(graph.vertices.len(), 4);
    assert_eq!(graph.half_edges.len(), 8);
    let cycles = graph.extract_cycles();
    assert_eq!(cycles.len(), 2, "quad boundary should produce 2 cycles");
    assert!(graph.half_edges.iter().all(|he| he.used));
}

#[test]
fn face_split_by_ic_two_fragments() {
    //   3 ------ 5 ------ 2
    //   |        |        |
    //   0 ------ 4 ------ 1
    let mut pos = HashMap::new();
    pos.insert(0, (0.0, 0.0));
    pos.insert(1, (2.0, 0.0));
    pos.insert(2, (2.0, 1.0));
    pos.insert(3, (0.0, 1.0));
    pos.insert(4, (1.0, 0.0));
    pos.insert(5, (1.0, 1.0));
    let ic = 99;
    let left = vec![eu(10, 0, 4, true), eu(ic, 4, 5, true), eu(11, 5, 3, true), eu(12, 3, 0, true)];
    let right = vec![eu(13, 4, 1, true), eu(14, 1, 2, true), eu(15, 2, 5, true), eu(ic, 5, 4, false)];
    let loops = vec![
        BoundaryWireTopo { wire: left, status: ShapesOpStatus::And },
        BoundaryWireTopo { wire: right, status: ShapesOpStatus::Or },
    ];
    let graph = build(&loops, &pos);
    assert!(graph.is_some());
    let mut graph = graph.unwrap();
    assert_eq!(graph.vertices.len(), 6);
    assert_eq!(graph.half_edges.len(), 14);
    let cycles = graph.extract_cycles();
    assert_eq!(cycles.len(), 3, "split face should produce 3 cycles");
    let fragments: Vec<ShapesOpStatus> = cycles
        .iter()
        .filter(|c| signed_area(&graph, c, &pos) > 0.0)
        .map(|c| fragment_status(graph.cycle_status(c), &[]))
        .collect();
    assert_eq!(fragments.len(), 2, "should produce exactly 2 face fragments");
    assert!(fragments.contains(&ShapesOpStatus::And));
    assert!(fragments.contains(&ShapesOpStatus::Or));
}

#[test]
fn face_with_hole_disconnected_returns_none() {
    let mut pos = HashMap::new();
    pos.insert(0, (0.0, 0.0));
    pos.insert(1, (3.0, 0.0));
    pos.insert(2, (3.0, 3.0));
    pos.insert(3, (0.0, 3.0));
    pos.insert(4, (1.0, 1.0));
    pos.insert(5, (2.0, 1.0));
    pos.insert(6, (2.0, 2.0));
    pos.insert(7, (1.0, 2.0));
    let loops = vec![
        BoundaryWireTopo { wire: polygon(&[0, 1, 2, 3], 0), status: ShapesOpStatus::Unknown },
        BoundaryWireTopo { wire: polygon(&[4, 7, 6, 5], 10), status: ShapesOpStatus::Unknown },
    ];
    let graph = build(&loops, &pos);
    assert!(graph.is_none(), "FBG should return None for disconnected wire components");
}

#[test]
fn degenerate_zero_length_edge_filtered() {
    let mut pos = unit_square_positions();
    pos.remove(&3);
    let loops = vec![BoundaryWireTopo { wire: polygon(&[0, 1, 2], 0), status: ShapesOpStatus::Unknown }];
    let graph = build(&loops, &pos);
    assert!(graph.is_some());
    let graph = graph.unwrap();
    assert_eq!(graph.vertices.len(), 3);
    assert_eq!(graph.half_edges.len(), 6);
}

#[test]
fn zero_length_use_adds_no_half_edge() {
    let mut wire = polygon(&[0, 1, 2], 0);
    wire.insert(1, eu(50, 1, 1, true));
    let loops = vec![BoundaryWireTopo { wire, status: ShapesOpStatus::Unknown }];
    let g = FaceBoundaryGraph::unlinked_from_loops(&loops).unwrap();
    assert_eq!(g.vertices.len(), 3);
    assert_eq!(g.half_edges.len(), 6);
    assert!(g.half_edges.iter().all(|he| he.origin != g.half_edges[he.twin].origin));
}

#[test]
fn all_half_edges_have_valid_next() {
    let mut pos = HashMap::new();
    pos.insert(0, (0.0, 0.0));
    pos.insert(1, (1.0, 0.0));
    pos.insert(2, (0.5, 1.0));
    let loops = vec![BoundaryWireTopo { wire: polygon(&[0, 1, 2], 0), status: ShapesOpStatus::Unknown }];
    let graph = build(&loops, &pos);
    assert!(graph.is_some());
    let graph = graph.unwrap();
    for he in &graph.half_edges {
        assert_ne!(he.next, usize::MAX, "half-edge {} should have valid next pointer", he.id);
        assert!(he.next < graph.half_edges.len());
    }
    for start in 0..graph.half_edges.len() {
        let mut current = start;
        let mut steps = 0;
        loop {
            current = graph.half_edges[current].next;
            steps += 1;
            if current == start || steps > graph.half_edges.len() {
                break;
            }
        }
        assert_eq!(current, start, "following next from half-edge {} should form a cycle", start);
    }
}

#[test]
fn from_loops_pairs_twins_and_lists_outgoing_in_index_order() {
    let loops = vec![BoundaryWireTopo { wire: polygon(&[0, 1, 2, 3], 0), status: ShapesOpStatus::And }];
    let g = FaceBoundaryGraph::unlinked_from_loops(&loops).unwrap();
    for (i, he) in g.half_edges.iter().enumerate() {
        assert_eq!(he.id, i);
        assert_eq!(he.twin, i ^ 1);
        assert_eq!(he.next, NO_NEXT);
        assert_eq!(he.forward, i % 2 == 0);
        assert_eq!(he.status, ShapesOpStatus::And);
        assert!(!he.used);
    }
    let vertex_ids: Vec<u64> = g.vertices.iter().map(|v| v.vertex).collect();
    assert_eq!(vertex_ids, vec![0, 1, 2, 3]);
    assert_eq!(g.vertices[0].outgoing, vec![0, 7]);
    assert_eq!(g.vertices[1].outgoing, vec![1, 2]);
}

#[test]
fn from_loops_none_without_half_edges() {
    assert!(FaceBoundaryGraph::unlinked_from_loops(&[]).is_none());
    let loops = vec![BoundaryWireTopo { wire: vec![eu(1, 4, 4, true)], status: ShapesOpStatus::Unknown }];
    assert!(FaceBoundaryGraph::unlinked_from_loops(&loops).is_none());
}

#[test]
fn second_use_passes_its_decided_status_on() {
    let a = vec![eu(7, 0, 1, true), eu(8, 1, 2, true), eu(9, 2, 0, true)];
    let b = vec![eu(7, 1, 0, true), eu(10, 0, 3, true)];
    let loops = vec![
        BoundaryWireTopo { wire: a, status: ShapesOpStatus::And },
        BoundaryWireTopo { wire: b, status: ShapesOpStatus::Or },
    ];
    let g = FaceBoundaryGraph::unlinked_from_loops(&loops).unwrap();
    // Edge 7 keeps one pair; its forward half-edge takes the second status.
    assert_eq!(g.half_edges.len(), 8);
    assert_eq!(g.half_edges[0].status, ShapesOpStatus::Or);
    assert_eq!(g.half_edges[1].status, ShapesOpStatus::And);
}

#[test]
fn set_outgoing_order_rejects_other_lists() {
    let loops = vec![BoundaryWireTopo { wire: polygon(&[0, 1, 2, 3], 0), status: ShapesOpStatus::Unknown }];
    let mut g = FaceBoundaryGraph::unlinked_from_loops(&loops).unwrap();
    assert!(!g.set_outgoing_order(0, vec![0]));
    assert!(!g.set_outgoing_order(0, vec![0, 0]));
    assert!(!g.set_outgoing_order(0, vec![0, 1]));
    assert!(!g.set_outgoing_order(9, vec![0, 7]));
    assert_eq!(g.vertices[0].outgoing, vec![0, 7]);
    assert!(g.set_outgoing_order(0, vec![7, 0]));
    assert_eq!(g.vertices[0].outgoing, vec![7, 0]);
}

#[test]
fn linking_takes_the_entry_before_the_twin() {
    let loops = vec![BoundaryWireTopo { wire: polygon(&[0, 1, 2], 0), status: ShapesOpStatus::Unknown }];
    let g = FaceBoundaryGraph::unlinked_from_loops(&loops).unwrap().link().unwrap();
    // Half-edge 0 runs 0 -> 1; its twin 1 is first at vertex 1, whose
    // outgoing list is [1, 2]: the entry before it, cyclically, is 2.
    assert_eq!(g.vertices[1].outgoing, vec![1, 2]);
    assert_eq!(g.half_edges[0].next, 2);
}

#[test]
fn extract_cycles_lists_each_from_its_smallest_half_edge() {
    let mut pos = HashMap::new();
    pos.insert(0, (0.0, 0.0));
    pos.insert(1, (1.0, 0.0));
    pos.insert(2, (0.5, 1.0));
    let loops = vec![BoundaryWireTopo { wire: polygon(&[0, 1, 2], 0), status: ShapesOpStatus::Unknown }];
    let mut g = build(&loops, &pos).unwrap();
    let cycles = g.extract_cycles();
    assert_eq!(cycles, vec![vec![0, 2, 4], vec![1, 5, 3]]);
    // A second extraction finds everything used.
    assert!(g.extract_cycles().is_empty());
}

#[test]
fn cycle_status_majority_vote() {
    let a = vec![eu(1, 0, 1, true), eu(2, 1, 2, true), eu(3, 2, 0, true)];
    let loops = vec![BoundaryWireTopo { wire: a, status: ShapesOpStatus::Or }];
    let mut g = FaceBoundaryGraph::unlinked_from_loops(&loops).unwrap();
    assert_eq!(g.cycle_status(&vec![0, 2, 4]), ShapesOpStatus::Or);
    g.half_edges[0].status = ShapesOpStatus::And;
    assert_eq!(g.cycle_status(&vec![0, 2]), ShapesOpStatus::And);
    g.half_edges[2].status = ShapesOpStatus::Unknown;
    g.half_edges[4].status = ShapesOpStatus::Unknown;
    g.half_edges[0].status = ShapesOpStatus::Unknown;
    assert_eq!(g.cycle_status(&vec![0, 2, 4]), ShapesOpStatus::Unknown);
    assert_eq!(g.cycle_status(&vec![]), ShapesOpStatus::Unknown);
}

#[test]
fn fragment_status_last_decided_hole_wins() {
    assert_eq!(fragment_status(And, &[]), And);
    assert_eq!(fragment_status(And, &[Unknown]), And);
    assert_eq!(fragment_status(Unknown, &[Or, Unknown]), Or);
    assert_eq!(fragment_status(And, &[Or, And, Unknown]), And);
}

#[test]
fn is_connected_follows_half_edges() {
    let loops = vec![
        BoundaryWireTopo { wire: polygon(&[0, 1, 2], 0), status: ShapesOpStatus::Unknown },
        BoundaryWireTopo { wire: polygon(&[3, 4, 5], 10), status: ShapesOpStatus::Unknown },
    ];
    let g = FaceBoundaryGraph::unlinked_from_loops(&loops).unwrap();
    assert!(!g.is_connected());
    let joined = vec![
        BoundaryWireTopo { wire: polygon(&[0, 1, 2], 0), status: ShapesOpStatus::Unknown },
        BoundaryWireTopo { wire: polygon(&[2, 4, 5], 10), status: ShapesOpStatus::Unknown },
    ];
    assert!(FaceBoundaryGraph::unlinked_from_loops(&joined).unwrap().is_connected());
}

#[test]
fn extract_cycles_skips_walks_that_run_into_used_half_edges() {
    let loops = vec![BoundaryWireTopo { wire: polygon(&[0, 1, 2], 0), status: ShapesOpStatus::Unknown }];
    let mut g = FaceBoundaryGraph::unlinked_from_loops(&loops).unwrap();
    // 0 -> 2 -> 4 -> 2 runs into itself; 1 -> 3 -> 5 -> 1 closes.
    for (h, n) in [(0, 2), (2, 4), (4, 2), (1, 3), (3, 5), (5, 1)] {
        g.half_edges[h].next = n;
    }
    assert_eq!(g.extract_cycles(), vec![vec![1, 3, 5]]);
    assert!(g.half_edges.iter().all(|h| h.used));
}

#[test]
fn extract_cycles_stops_at_half_edges_used_before() {
    let loops = vec![BoundaryWireTopo { wire: polygon(&[0, 1, 2], 0), status: ShapesOpStatus::Unknown }];
    let mut g = FaceBoundaryGraph::unlinked_from_loops(&loops).unwrap();
    for (h, n) in [(0, 2), (2, 4), (4, 0), (1, 3), (3, 5), (5, 1)] {
        g.half_edges[h].next = n;
    }
    g.half_edges[3].used = true;
    assert_eq!(g.extract_cycles(), vec![vec![0, 2, 4]]);
}

#[test]
fn cycles_meet_when_they_leave_a_common_vertex() {
    let mut pos = HashMap::new();
    pos.insert(0, (0.0, 0.0));
    pos.insert(1, (1.0, 0.0));
    pos.insert(2, (0.5, 1.0));
    let loops = vec![BoundaryWireTopo { wire: polygon(&[0, 1, 2], 0), status: ShapesOpStatus::Unknown }];
    let mut g = build(&loops, &pos).unwrap();
    let cycles = g.extract_cycles();
    assert!(g.cycles_share_a_vertex(&cycles[0], &cycles[1]));
    assert!(!g.cycles_share_a_vertex(&vec![0], &vec![2]));
    assert!(!g.cycles_share_a_vertex(&cycles[0], &vec![]));
}

#[test]
fn from_loops_refuses_orders_that_do_not_fit() {
    let loops = vec![BoundaryWireTopo { wire: polygon(&[0, 1, 2, 3], 0), status: Unknown }];
    let pos = unit_square_positions();
    let good = radial_orders(&FaceBoundaryGraph::unlinked_from_loops(&loops).unwrap(), &pos);
    assert!(FaceBoundaryGraph::from_loops(&loops, &good).is_some());
    assert!(FaceBoundaryGraph::from_loops(&loops, &good[..3].to_vec()).is_none());
    let mut bad = good.clone();
    bad[0] = vec![bad[0][0], bad[0][0]];
    assert!(FaceBoundaryGraph::from_loops(&loops, &bad).is_none());
    assert!(FaceBoundaryGraph::from_loops(&[], &Vec::new()).is_none());
}

#[test]
fn from_loops_links_every_half_edge() {
    let loops = vec![BoundaryWireTopo { wire: polygon(&[0, 1, 2, 3], 0), status: Unknown }];
    let g = build(&loops, &unit_square_positions()).unwrap();
    assert!(g.half_edges.iter().all(|he| he.next < g.half_edges.len()));
    let mut seen = vec![false; g.half_edges.len()];
    for he in &g.half_edges {
        assert!(!seen[he.next]);
        seen[he.next] = true;
    }
}

#[test]
fn holes_go_to_the_first_outer_cycle_that_can_take_them() {
    // Two separate squares and a triangle; cycles are read off the unlinked
    // graph's half-edges so that the vertices they visit are known.
    let loops = vec![
        BoundaryWireTopo { wire: polygon(&[0, 1, 2, 3], 0), status: Unknown },
        BoundaryWireTopo { wire: polygon(&[4, 5, 6, 7], 10), status: Unknown },
        BoundaryWireTopo { wire: polygon(&[8, 9, 10], 20), status: Unknown },
    ];
    let g = FaceBoundaryGraph::unlinked_from_loops(&loops).unwrap();
    let by_origin = |vs: &[u64]| -> Vec<usize> {
        vs.iter().map(|v| (0..g.half_edges.len()).step_by(2).find(|&h| g.vertices[g.half_edges[h].origin].vertex == *v).unwrap()).collect()
    };
    let cycles = vec![by_origin(&[0, 1, 2, 3]), by_origin(&[4, 5, 6, 7]), by_origin(&[8, 9, 10]), by_origin(&[0, 9])];
    let roles = vec![CycleRole::Outer, CycleRole::Outer, CycleRole::Hole, CycleRole::Hole];
    // Both outer cycles contain the triangle; only the first contains the last hole.
    let contains = vec![
        vec![false, false, true, true],
        vec![false, false, true, false],
        vec![false; 4],
        vec![false; 4],
    ];
    let assigned = g.assign_holes(&cycles, &roles, &contains);
    // The triangle goes to the first outer cycle; the last hole meets it
    // (vertex 0) and no other outer cycle contains it, so it stays unowned.
    assert_eq!(assigned, vec![vec![2], vec![], vec![], vec![]]);
    let contains_second = vec![vec![false; 4], vec![false, false, true, true], vec![false; 4], vec![false; 4]];
    assert_eq!(g.assign_holes(&cycles, &roles, &contains_second), vec![vec![], vec![2, 3], vec![], vec![]]);
}
