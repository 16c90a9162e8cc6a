//! Diagnostic reports emitted by boolean operations, and the structured error
//! of the boolean pipeline stages.
use vstd::prelude::*;
use std::time::Duration;
use crate::text::{decimal, push_decimal};
use crate::topology::{FaceTopo, views, half_edge_table, euler_chi, validate_euler_characteristic};

verus! {

/// Face classification counts from a boolean operation.
#[derive(Clone, Debug)]
pub struct ClassificationReport {
    /// Faces that were split by intersection curves.
    pub faces_ic_split: usize,
    /// Faces classified as coplanar.
    pub faces_coplanar: usize,
    /// Faces classified via ray-cast.
    pub faces_ray_cast: usize,
    /// Faces integrated by connected component.
    pub faces_component_integrated: usize,
    /// Shell 0 faces classified as And (inside the other solid).
    pub shell0_and: usize,
    /// Shell 0 faces classified as Or (outside the other solid).
    pub shell0_or: usize,
    /// Shell 1 faces classified as And (inside the other solid).
    pub shell1_and: usize,
    /// Shell 1 faces classified as Or (outside the other solid).
    pub shell1_or: usize,
}

impl Default for ClassificationReport {
    fn default() -> (r: Self)
        ensures
            r.faces_ic_split == 0,
            r.faces_coplanar == 0,
            r.faces_ray_cast == 0,
            r.faces_component_integrated == 0,
            r.shell0_and == 0,
            r.shell0_or == 0,
            r.shell1_and == 0,
            r.shell1_or == 0,
    {
        ClassificationReport {
            faces_ic_split: 0,
            faces_coplanar: 0,
            faces_ray_cast: 0,
            faces_component_integrated: 0,
            shell0_and: 0,
            shell0_or: 0,
            shell1_and: 0,
            shell1_or: 0,
        }
    }
}

impl ClassificationReport {
    /// Records the outcome of classifying the faces of both shells: how many
    /// faces were coplanar in either shell, and how many faces of each shell
    /// ended up inside (`And`) and outside (`Or`) the other solid. The other
    /// counts are kept.
    pub fn record_outcome(
        &mut self,
        coplanar0: &[FaceTopo],
        coplanar1: &[FaceTopo],
        and0: &[FaceTopo],
        or0: &[FaceTopo],
        and1: &[FaceTopo],
        or1: &[FaceTopo],
    )
        requires
            coplanar0@.len() + coplanar1@.len() <= usize::MAX,
        ensures
            final(self).faces_coplanar == coplanar0@.len() + coplanar1@.len(),
            final(self).shell0_and == and0@.len(),
            final(self).shell0_or == or0@.len(),
            final(self).shell1_and == and1@.len(),
            final(self).shell1_or == or1@.len(),
            final(self).faces_ic_split == old(self).faces_ic_split,
            final(self).faces_ray_cast == old(self).faces_ray_cast,
            final(self).faces_component_integrated == old(self).faces_component_integrated,
    {
        self.faces_coplanar = coplanar0.len() + coplanar1.len();
        self.shell0_and = and0.len();
        self.shell0_or = or0.len();
        self.shell1_and = and1.len();
        self.shell1_or = or1.len();
    }
}

/// Topology repair counts from a boolean operation.
#[derive(Clone, Debug)]
pub struct TopologyReport {
    /// Vertices unified during weld.
    pub vertices_welded: usize,
    /// Edges canonicalized in the first weld phase.
    pub edges_canonicalized: usize,
    /// Wires split at repeated vertices.
    pub wires_split: usize,
    /// Wires repaired (non-simple to simple).
    pub wires_repaired: usize,
}

impl Default for TopologyReport {
    fn default() -> (r: Self)
        ensures
            r.vertices_welded == 0,
            r.edges_canonicalized == 0,
            r.wires_split == 0,
            r.wires_repaired == 0,
    {
        TopologyReport { vertices_welded: 0, edges_canonicalized: 0, wires_split: 0, wires_repaired: 0 }
    }
}

/// Intersection curve computation report.
#[derive(Clone, Debug)]
pub struct IntersectionReport {
    /// Number of face pairs tested for intersection.
    pub face_pairs_tested: usize,
    /// Number of intersection curves produced.
    pub intersection_curves_produced: usize,
    /// Degenerate closed intersection curves filtered out.
    pub degenerate_closed_ics_filtered: usize,
    /// Short intersection curves filtered out.
    pub short_ics_filtered: usize,
    /// Intersection curves coincident with edges, filtered out.
    pub coincident_edge_ics_filtered: usize,
}

impl Default for IntersectionReport {
    fn default() -> (r: Self)
        ensures
            r.face_pairs_tested == 0,
            r.intersection_curves_produced == 0,
            r.degenerate_closed_ics_filtered == 0,
            r.short_ics_filtered == 0,
            r.coincident_edge_ics_filtered == 0,
    {
        IntersectionReport {
            face_pairs_tested: 0,
            intersection_curves_produced: 0,
            degenerate_closed_ics_filtered: 0,
            short_ics_filtered: 0,
            coincident_edge_ics_filtered: 0,
        }
    }
}

/// Face division report.
#[derive(Clone, Debug)]
pub struct DivisionReport {
    /// Faces successfully divided along intersection curves.
    pub faces_divided: usize,
    /// Total face fragments produced.
    pub total_fragments: usize,
    /// Faces where division failed.
    pub faces_division_failed: usize,
    /// Embedded wires removed during division.
    pub embedded_wires_removed: usize,
    /// Merge-splice recovery operations performed.
    pub merge_splice_recoveries: usize,
}

impl Default for DivisionReport {
    fn default() -> (r: Self)
        ensures
            r.faces_divided == 0,
            r.total_fragments == 0,
            r.faces_division_failed == 0,
            r.embedded_wires_removed == 0,
            r.merge_splice_recoveries == 0,
    {
        DivisionReport {
            faces_divided: 0,
            total_fragments: 0,
            faces_division_failed: 0,
            embedded_wires_removed: 0,
            merge_splice_recoveries: 0,
        }
    }
}

/// Shell closure recovery report.
#[derive(Clone, Debug)]
pub struct RecoveryReport {
    /// Recovery level reached (0 = no recovery needed, 1-6 = recovery stages).
    pub recovery_level: u8,
    /// Open edges remaining after weld.
    pub open_edges_after_weld: usize,
    /// Whether the Euler characteristic is valid (V-E+F=2).
    pub euler_valid: bool,
    /// Euler characteristic value.
    pub euler_chi: i64,
}

impl Default for RecoveryReport {
    fn default() -> (r: Self)
        ensures
            r.recovery_level == 0,
            r.open_edges_after_weld == 0,
            !r.euler_valid,
            r.euler_chi == 0,
    {
        RecoveryReport { recovery_level: 0, open_edges_after_weld: 0, euler_valid: false, euler_chi: 0 }
    }
}

/// Edge-neighbor classification propagation report.
#[derive(Clone, Debug)]
pub struct EdgeNeighborReport {
    /// Faces entered into edge-neighbor classification.
    pub faces_entered: usize,
    /// Rounds of iterative propagation executed.
    pub rounds_executed: usize,
    /// Faces resolved by edge-neighbor propagation.
    pub faces_resolved: usize,
}

impl Default for EdgeNeighborReport {
    fn default() -> (r: Self)
        ensures
            r.faces_entered == 0,
            r.rounds_executed == 0,
            r.faces_resolved == 0,
    {
        EdgeNeighborReport { faces_entered: 0, rounds_executed: 0, faces_resolved: 0 }
    }
}

/// Pre-heal vertex unification report.
#[derive(Clone, Debug)]
pub struct PreHealReport {
    /// Number of unique vertices before healing.
    pub vertex_count: usize,
    /// Number of vertices unified by healing.
    pub healed_count: usize,
    /// Whether non-manifold issues were detected.
    pub non_manifold_detected: bool,
}

impl Default for PreHealReport {
    fn default() -> (r: Self)
        ensures
            r.vertex_count == 0,
            r.healed_count == 0,
            !r.non_manifold_detected,
    {
        PreHealReport { vertex_count: 0, healed_count: 0, non_manifold_detected: false }
    }
}

/// Perturbation cascade report.
#[derive(Clone, Debug)]
pub struct CascadeReport {
    /// Total number of attempts made.
    pub attempts: usize,
    /// Names of strategies tried.
    pub strategies_tried: Vec<String>,
    /// Name of the strategy that succeeded (if any).
    pub final_strategy: Option<String>,
    /// Whether the cascade exhausted all attempts.
    pub exhausted: bool,
}

impl Default for CascadeReport {
    fn default() -> (r: Self)
        ensures
            r.attempts == 0,
            r.strategies_tried@.len() == 0,
            r.final_strategy is None,
            !r.exhausted,
    {
        CascadeReport { attempts: 0, strategies_tried: Vec::new(), final_strategy: None, exhausted: false }
    }
}

/// How many faces were classified by each method.
#[derive(Clone, Debug)]
pub struct ClassificationSummary {
    /// Faces classified via coplanar overlay.
    pub faces_by_overlay: usize,
    /// Faces classified via coplanar fragment test.
    pub faces_by_coplanar: usize,
    /// Faces classified via ray-cast.
    pub faces_by_raycast: usize,
    /// Faces classified via edge-neighbor propagation.
    pub faces_by_edge_neighbor: usize,
}

impl Default for ClassificationSummary {
    fn default() -> (r: Self)
        ensures
            r.faces_by_overlay == 0,
            r.faces_by_coplanar == 0,
            r.faces_by_raycast == 0,
            r.faces_by_edge_neighbor == 0,
    {
        ClassificationSummary {
            faces_by_overlay: 0,
            faces_by_coplanar: 0,
            faces_by_raycast: 0,
            faces_by_edge_neighbor: 0,
        }
    }
}

/// The zero-length duration: std's `Duration::ZERO`. The contract claims
/// nothing of the value, whose inside Verus does not see.
#[verifier::external_body]
fn zero_duration() -> (r: Duration) {
    Duration::ZERO
}

/// Timing per stage of a boolean operation.
#[derive(Clone, Copy, Debug)]
pub struct TimingReport {
    /// Time for intersection loop construction.
    pub loops_store: Duration,
    /// Time for face division along intersection curves.
    pub divide_faces: Duration,
    /// Time for face classification (ray-cast + coplanar).
    pub classification: Duration,
    /// Time for edge welding and canonicalization.
    pub weld: Duration,
    /// Time for shell conversion.
    pub altshell: Duration,
    /// Total time for the entire boolean operation.
    pub total: Duration,
}

impl Default for TimingReport {
    fn default() -> (r: Self) {
        TimingReport {
            loops_store: zero_duration(),
            divide_faces: zero_duration(),
            classification: zero_duration(),
            weld: zero_duration(),
            altshell: zero_duration(),
            total: zero_duration(),
        }
    }
}

/// Diagnostic report emitted after a boolean operation (all counters; the
/// floating-point tolerance values travel beside it).
#[derive(Clone, Debug)]
pub struct BooleanDiagnostics {
    /// Face classification counts.
    pub classification: ClassificationReport,
    /// Topology repair counts.
    pub topology: TopologyReport,
    /// Timing per stage.
    pub timing: TimingReport,
    /// Intersection curve computation report.
    pub intersection: IntersectionReport,
    /// Face division report.
    pub division: DivisionReport,
    /// Shell closure recovery report.
    pub recovery: RecoveryReport,
    /// Edge-neighbor classification propagation report.
    pub edge_neighbor: EdgeNeighborReport,
    /// Pre-heal vertex unification report.
    pub pre_heal: Option<PreHealReport>,
    /// Perturbation cascade report.
    pub cascade: Option<CascadeReport>,
    /// Classification method summary.
    pub classification_summary: Option<ClassificationSummary>,
    /// Warnings about near-tolerance decisions.
    pub warnings: Vec<String>,
}

impl Default for BooleanDiagnostics {
    fn default() -> (r: Self)
        ensures
            r.classification.shell0_and == 0,
            r.classification.shell0_or == 0,
            r.classification.shell1_and == 0,
            r.classification.shell1_or == 0,
            r.classification.faces_ic_split == 0,
            r.classification.faces_coplanar == 0,
            r.classification.faces_ray_cast == 0,
            r.classification.faces_component_integrated == 0,
            r.topology.vertices_welded == 0,
            r.topology.edges_canonicalized == 0,
            r.topology.wires_split == 0,
            r.topology.wires_repaired == 0,
            r.intersection.face_pairs_tested == 0,
            r.intersection.intersection_curves_produced == 0,
            r.intersection.degenerate_closed_ics_filtered == 0,
            r.intersection.short_ics_filtered == 0,
            r.intersection.coincident_edge_ics_filtered == 0,
            r.division.faces_divided == 0,
            r.division.total_fragments == 0,
            r.division.faces_division_failed == 0,
            r.division.embedded_wires_removed == 0,
            r.division.merge_splice_recoveries == 0,
            r.recovery.recovery_level == 0,
            r.recovery.open_edges_after_weld == 0,
            !r.recovery.euler_valid,
            r.recovery.euler_chi == 0,
            r.edge_neighbor.faces_entered == 0,
            r.edge_neighbor.rounds_executed == 0,
            r.edge_neighbor.faces_resolved == 0,
            r.pre_heal is None,
            r.cascade is None,
            r.classification_summary is None,
            r.warnings@.len() == 0,
    {
        BooleanDiagnostics {
            classification: ClassificationReport::default(),
            topology: TopologyReport::default(),
            timing: TimingReport::default(),
            intersection: IntersectionReport::default(),
            division: DivisionReport::default(),
            recovery: RecoveryReport::default(),
            edge_neighbor: EdgeNeighborReport::default(),
            pre_heal: None,
            cascade: None,
            classification_summary: None,
            warnings: Vec::new(),
        }
    }
}

/// The number of classified faces: And and Or faces of both shells.
pub open spec fn total_classified(c: ClassificationReport) -> int {
    c.shell0_and + c.shell0_or + c.shell1_and + c.shell1_or
}

/// The one-line summary: `[bool-diag] faces=T and=A0+A1 or=O0+O1`, followed by
/// ` recovery=L<level>` when a recovery level was reached, ` edge_nbr=<n>` when
/// edge-neighbor propagation resolved faces, and ` cascade=<attempts>` when a
/// cascade report is present.
pub open spec fn summary_text(d: BooleanDiagnostics) -> Seq<char> {
    let c = d.classification;
    let recovery = if d.recovery.recovery_level > 0 {
        " recovery=L"@ + decimal(d.recovery.recovery_level as nat)
    } else {
        Seq::<char>::empty()
    };
    let edge_nbr = if d.edge_neighbor.faces_resolved > 0 {
        " edge_nbr="@ + decimal(d.edge_neighbor.faces_resolved as nat)
    } else {
        Seq::<char>::empty()
    };
    let cascade = match d.cascade {
        Some(cs) => " cascade="@ + decimal(cs.attempts as nat),
        None => Seq::<char>::empty(),
    };
    "[bool-diag] faces="@ + decimal(total_classified(c) as nat) + " and="@ + decimal(
        c.shell0_and as nat,
    ) + "+"@ + decimal(c.shell1_and as nat) + " or="@ + decimal(c.shell0_or as nat) + "+"@
        + decimal(c.shell1_or as nat) + recovery + edge_nbr + cascade
}

impl BooleanDiagnostics {
    /// One-line human-readable summary of key metrics.
    pub fn summary_line(&self) -> (r: String)
        requires
            total_classified(self.classification) <= usize::MAX,
        ensures
            r@ == summary_text(*self),
    {
        let c = &self.classification;
        let total = c.shell0_and + c.shell0_or + c.shell1_and + c.shell1_or;
        let mut s = String::from_str("[bool-diag] faces=");
        push_decimal(&mut s, total as u64);
        s.append(" and=");
        push_decimal(&mut s, c.shell0_and as u64);
        s.append("+");
        push_decimal(&mut s, c.shell1_and as u64);
        s.append(" or=");
        push_decimal(&mut s, c.shell0_or as u64);
        s.append("+");
        push_decimal(&mut s, c.shell1_or as u64);
        if self.recovery.recovery_level > 0 {
            s.append(" recovery=L");
            push_decimal(&mut s, self.recovery.recovery_level as u64);
        }
        if self.edge_neighbor.faces_resolved > 0 {
            s.append(" edge_nbr=");
            push_decimal(&mut s, self.edge_neighbor.faces_resolved as u64);
        }
        match &self.cascade {
            Some(cs) => {
                s.append(" cascade=");
                push_decimal(&mut s, cs.attempts as u64);
            },
            None => {},
        }
        s
    }
}

/// Structured error of the boolean pipeline stages.
#[derive(Debug)]
pub enum BooleanStageError {
    /// Intersection loop construction failed.
    LoopsStoreCreation,
    /// Face division failed (splitting faces along intersection curves).
    FaceDivision,
    /// Ray-cast classification of a face fragment was ambiguous.
    Classification,
    /// Final shell assembly failed, with the reason.
    ShellAssembly(String),
}

/// The text that describes a stage error.
pub open spec fn stage_error_text(e: BooleanStageError) -> Seq<char> {
    match e {
        BooleanStageError::LoopsStoreCreation => "loops store creation failed"@,
        BooleanStageError::FaceDivision => "face division failed"@,
        BooleanStageError::Classification => "face classification ambiguous"@,
        BooleanStageError::ShellAssembly(detail) => "shell assembly failed: "@ + detail@,
    }
}

impl BooleanStageError {
    /// The human-readable description of the error.
    pub fn message(&self) -> (r: String)
        ensures
            r@ == stage_error_text(*self),
    {
        match self {
            BooleanStageError::LoopsStoreCreation => String::from_str("loops store creation failed"),
            BooleanStageError::FaceDivision => String::from_str("face division failed"),
            BooleanStageError::Classification => String::from_str("face classification ambiguous"),
            BooleanStageError::ShellAssembly(detail) => {
                let mut s = String::from_str("shell assembly failed: ");
                s.append(detail.as_str());
                s
            },
        }
    }
}

} // verus!

verus! {

/// Records the Euler characteristic of the shell's faces: valid with 2
/// when V - E + F = 2, otherwise invalid with the value found.
pub fn populate_euler(recovery: &mut RecoveryReport, faces: &[FaceTopo])
    requires
        3 * half_edge_table(views(faces@)).len() + faces@.len() <= i64::MAX,
    ensures
        final(recovery).euler_valid == (euler_chi(views(faces@)) == 2),
        final(recovery).euler_chi == euler_chi(views(faces@)),
        final(recovery).recovery_level == old(recovery).recovery_level,
        final(recovery).open_edges_after_weld == old(recovery).open_edges_after_weld,
{
    match validate_euler_characteristic(faces) {
        Ok(()) => {
            recovery.euler_valid = true;
            recovery.euler_chi = 2;
        },
        Err((_v, _e, _f, chi)) => {
            recovery.euler_valid = false;
            recovery.euler_chi = chi;
        },
    }
}

} // verus!
