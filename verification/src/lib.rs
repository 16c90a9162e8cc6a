//! Identity, diagnostics and topological decision logic of boolean operations on
//! boundary-representation solids.
pub mod id;
pub mod text;
pub mod diagnostics;
pub mod topology;
pub mod reach;
pub mod classification;
pub mod boundary_graph;
pub mod open_loops;
pub mod assembly;
pub mod wire_repair;
pub mod vertex_heal;
pub mod gap_repair;
pub mod edge_weld;
pub mod ray_vote;
pub mod splice;
pub mod face_rebuild;
