# truck_shapeops

The identity, diagnostics and topological decision logic of boolean
operations on boundary-representation solids, written in Verus and proved
against its contracts.

## Layout

- `src/` — the verified library.
  - `id` — address identities, per-operation deterministic IDs and the
    creation-order sequence counter.
  - `text` — decimal and hexadecimal digit strings.
  - `diagnostics` — the reports of a boolean operation and its stage errors.
  - `topology` — faces as wires of oriented edge uses; the half-edge table,
    Euler characteristic, open-edge and wire-simplicity checks.
  - `reach` — reachability in adjacency lists.
  - `ray_vote` — the votes of ray-cast classification.
  - `classification` — And/Or/Unknown statuses of face fragments, their
    integration by connected component, the settling of unknown fragments,
    propagation over shared edges, and the faces of a difference.
  - `boundary_graph` — the face boundary graph: half-edges, linking by
    angular order, face-cycle extraction, the grouping of holes under outer
    cycles, and fragment statuses.
  - `open_loops` — the loops that the open edges of a shell form.
  - `assembly` — grouping half-edges by quantized end positions, pairing
    them, rebuilding faces that share edges, and radial shell assembly.
  - `vertex_heal` — rebuilding faces after coincident vertices merge.
  - `edge_weld` — welding coincident edges, the two-reference rule after
    welding, merging open edges that lie on one another, the acceptance of
    Regular shells, and the progress of assembly over weld levels.
  - `wire_repair` — vertex sharing between wires, the removal of embedded
    wires and biangles, and splitting wires at repeated vertices.
  - `splice` — joining touching wires into one and splitting it again into
    simple wires.
  - `face_rebuild` — remaking a face from new wires: directly, after
    splitting, after bridging gaps, or keeping the face.
  - `gap_repair` — open wire ends, bridging gaps and chaining edge uses
    into closed wires.
- `tests/` — tests of the library on concrete shells and graphs.
- `app/` — the unverified shell: the process-wide ID counter, tolerances,
  and the floating-point geometry (angles, areas, containment, polygon
  overlay, the triangle R-tree, distances, ray casts) whose results the
  library's decisions take.
