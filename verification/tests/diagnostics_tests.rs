use truck_shapeops::diagnostics::ClassificationReport;
use truck_shapeops::topology::FaceTopo;
use truck_shapeops::diagnostics::{BooleanDiagnostics, BooleanStageError, CascadeReport, PreHealReport};

#[test]
fn test_diagnostics_default_values() {
    let diag = BooleanDiagnostics::default();
    assert_eq!(diag.classification.shell0_and, 0);
    assert_eq!(diag.classification.shell0_or, 0);
    assert_eq!(diag.classification.shell1_and, 0);
    assert_eq!(diag.classification.shell1_or, 0);
    assert_eq!(diag.recovery.recovery_level, 0);
    assert_eq!(diag.edge_neighbor.faces_resolved, 0);
    assert!(diag.pre_heal.is_none());
    assert!(diag.cascade.is_none());
    assert!(diag.classification_summary.is_none());
    assert!(diag.warnings.is_empty());
}

#[test]
fn test_summary_line_format() {
    let mut diag = BooleanDiagnostics::default();
    diag.classification.shell0_and = 3;
    diag.classification.shell0_or = 5;
    diag.classification.shell1_and = 2;
    diag.classification.shell1_or = 4;
    let line = diag.summary_line();
    assert!(line.starts_with("[bool-diag] "));
    assert!(line.contains("faces=14"));
    assert!(line.contains("and=3+2"));
    assert!(line.contains("or=5+4"));
    assert!(!line.contains("recovery="));
    assert!(!line.contains("edge_nbr="));
}

#[test]
fn test_summary_line_with_recovery() {
    let mut diag = BooleanDiagnostics::default();
    diag.classification.shell0_and = 1;
    diag.classification.shell1_or = 1;
    diag.recovery.recovery_level = 3;
    diag.edge_neighbor.faces_resolved = 2;
    diag.cascade = Some(CascadeReport {
        attempts: 5,
        strategies_tried: vec!["direct".into(), "scale-expand".into()],
        final_strategy: Some("scale-expand".into()),
        exhausted: false,
    });
    let line = diag.summary_line();
    assert!(line.contains("recovery=L3"));
    assert!(line.contains("edge_nbr=2"));
    assert!(line.contains("cascade=5"));
}

#[test]
fn test_pre_heal_report_default() {
    let report = PreHealReport::default();
    assert_eq!(report.vertex_count, 0);
    assert_eq!(report.healed_count, 0);
    assert!(!report.non_manifold_detected);
}

#[test]
fn test_cascade_report_default() {
    let report = CascadeReport::default();
    assert_eq!(report.attempts, 0);
    assert!(report.strategies_tried.is_empty());
    assert!(report.final_strategy.is_none());
    assert!(!report.exhausted);
}

#[test]
fn summary_line_exact_text() {
    let mut diag = BooleanDiagnostics::default();
    assert_eq!(diag.summary_line(), "[bool-diag] faces=0 and=0+0 or=0+0");
    diag.classification.shell0_and = 12;
    diag.classification.shell1_and = 7;
    diag.classification.shell0_or = 100;
    diag.classification.shell1_or = 0;
    diag.recovery.recovery_level = 6;
    assert_eq!(diag.summary_line(), "[bool-diag] faces=119 and=12+7 or=100+0 recovery=L6");
    diag.cascade = Some(CascadeReport::default());
    assert_eq!(diag.summary_line(), "[bool-diag] faces=119 and=12+7 or=100+0 recovery=L6 cascade=0");
}

#[test]
fn stage_error_messages() {
    assert_eq!(BooleanStageError::LoopsStoreCreation.message(), "loops store creation failed");
    assert_eq!(BooleanStageError::FaceDivision.message(), "face division failed");
    assert_eq!(BooleanStageError::Classification.message(), "face classification ambiguous");
    assert_eq!(
        BooleanStageError::ShellAssembly("open edge".to_string()).message(),
        "shell assembly failed: open edge"
    );
}

fn tri(id: u64, uses: [(u64, u64, u64, bool); 3]) -> truck_shapeops::topology::FaceTopo {
    truck_shapeops::topology::FaceTopo {
        id,
        boundaries: vec![uses
            .iter()
            .map(|&(edge, front, back, forward)| truck_shapeops::topology::EdgeUse { edge, front, back, forward })
            .collect()],
    }
}

#[test]
fn euler_of_a_tetrahedron_is_recorded_valid() {
    let faces = vec![
        tri(1, [(0, 0, 1, true), (1, 1, 2, true), (2, 2, 0, true)]),
        tri(2, [(0, 1, 0, false), (3, 0, 3, true), (4, 3, 1, false)]),
        tri(3, [(1, 2, 1, false), (4, 1, 3, true), (5, 3, 2, false)]),
        tri(4, [(2, 0, 2, false), (5, 2, 3, true), (3, 3, 0, false)]),
    ];
    let mut r = truck_shapeops::diagnostics::RecoveryReport::default();
    r.recovery_level = 3;
    truck_shapeops::diagnostics::populate_euler(&mut r, &faces);
    assert!(r.euler_valid);
    assert_eq!(r.euler_chi, 2);
    assert_eq!(r.recovery_level, 3);
    truck_shapeops::diagnostics::populate_euler(&mut r, &faces[..1]);
    assert!(!r.euler_valid);
    assert_eq!(r.euler_chi, 1);
}

#[test]
fn classification_outcome_counts_faces_per_shell() {
    let f = |id: u64| FaceTopo { id, boundaries: vec![] };
    let mut report = ClassificationReport::default();
    report.faces_ray_cast = 4;
    report.record_outcome(&[f(1)], &[f(2), f(3)], &[f(4), f(5), f(6)], &[], &[f(7)], &[f(8), f(9)]);
    assert_eq!(report.faces_coplanar, 3);
    assert_eq!((report.shell0_and, report.shell0_or, report.shell1_and, report.shell1_or), (3, 0, 1, 2));
    assert_eq!(report.faces_ray_cast, 4);
}

#[test]
fn test_diagnostics_default() {
    let diag = BooleanDiagnostics::default();
    assert!(diag.warnings.is_empty());
    assert_eq!(diag.classification.faces_coplanar, 0);
    assert_eq!(diag.topology.vertices_welded, 0);
}
