# architext-viewer

The logic of the Architext viewer: the architecture-document queries (blast
radius, inspector relations, notes) and the code-graph model (call-graph index
and breadth-first layering, reachability badges, culling, wavefronts and the
layered grid layouts), written in Verus and proved against their contracts.

## Layout

- `src/` — the verified library.
  - `models.rs` — the document and code-graph records the logic reads.
  - `text.rs` — character-sequence helpers shared by the other modules.
  - `graph.rs` — `GraphIndex` (adjacency, degrees, multi-source BFS with its
    exact layering and in-layer order), `FilterState`, `Reach` badges and
    signature rendering.
  - `view_model.rs` — `GraphModel` built from a code graph, culling, depth
    fields, wavefront layers and selection rules.
  - `model.rs` — call-depth layer assignment and the module/function grid
    layouts.
  - `blast_radius.rs`, `inspector.rs`, `notes.rs`, `icons.rs`,
    `enrichment.rs`, `paths.rs`, `provenance.rs` — the panels' logic.
- `tests/` — executable tests against the library.
- `app/` — what the library leaves to its caller: JSON decoding into the
  library's records, and the floating-point rendering (radii, camera framing,
  brightness decay, pixel placement of the grid layouts).

Public proof functions (`lemma_*`) state the library's laws, for example that
BFS layerings are unique, that culling never uploads an edge with a hidden
endpoint, and that a layout is determined by its input document.
