# pd_patch

A Pd-style patch editor: boxes joined by cables, with automatic wiring
(combiners, send/receive pairs, delay pairs for feedback), undo, label
completion from an operator catalog, automatic layout and `(patch …)` export.

`src/` is the library, verified with Verus. It holds the editing decisions
and the topology behind the layout:

- `kinds`, `layout_graph`, `units`, `topology`, `ranks`, `unit_ranks`,
  `layers`, `components`, `paths`: the layout graph, its pass-through
  columns and combiner pairs, ranking of units, layer order, connected
  components and path search;
- `editing`, `session`, `history`: what connecting, rewiring, copying and
  deleting do, and the undo history;
- `objects`, `object_text`, `labels`, `text`: object kinds, the grammar of box
  text, signal ids and their labels;
- `operators`, `catalog`: the operator catalog and its prefix search;
- `export`, `editor`: export strings and editor settings.

`app/` is the desktop program around it (egui / eframe): drawing, pointer
input, floating-point geometry and placement (with `rust-sugiyama`), file
reading.
