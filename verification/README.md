# diskviz

The core of a disk-usage visualizer, verified with Verus: a scanned
directory tree held in an index-based arena, its bottom-up aggregation of
sizes, counts, file-type and age statistics, removal of deleted subtrees, and
the bounded slices a user interface renders.

## Layout

- `src/scanner/` — the arena and everything computed over it.
  - `arena.rs`: nodes, parent links and subtree totals as mathematics, and
    the bottom-up aggregation pass.
  - `finalize.rs`, `tree.rs`: turning a walked arena into a `ScanTree` and
    what a finished tree holds; `assemble.rs` builds the arena from a
    depth-first stream of walked entries; `walk_common.rs` flattens an owned
    walked tree in pre-order.
  - `remove.rs`: taking a subtree out of a finished tree.
  - `consistency.rs`, `composition.rs`, `histogram.rs`: laws of finished and
    edited trees.
  - `dirmeta.rs`: counting each file and directory once, and decoding packed
    bulk directory records; `walk_stats.rs`: shared walk counters and the
    throttled progress report; `volume.rs`: bytes in use on a volume.
- `src/commands/`: the slices, summaries and node-id requests of the user
  interface, checks of a tree's shape, and the routing of menu items to
  window events.
- `src/sys.rs`: the standard-library services the library calls (clock,
  paths, decimal text), with their contracts.
- `tests/`: tests of the library.
- `app/`: the runtime around it — file-system walks, operating-system
  calls, the trash, and serialisable copies of the library's values.
