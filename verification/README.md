# schemweave

The verified core of the SchemWeave edge router, written in Verus.

`src/` holds the routing decisions that work on integers and identifiers,
each with a contract proved by Verus:

- `plan`: resolving edges against node positions, shared endpoints, sparse
  rank spans, fanout and corridor selection;
- `budget`: the work budgets that bound every search;
- `lanes`, `lane_moves`, `outer`, `outer_repair`: lane numbering, moving
  nets to the outer lanes, outer channel lanes, and which nets' outer routes
  move to the other side of the layout;
- `gap_order`, `global_order`, `hot_insertion`, `gap_work`,
  `gap_candidates`: ordering the vertical lanes of each gap to reduce
  predicted crossings, and choosing which candidate orders to keep;
- `pitched_tracks`, `pitched_close`: packing the vertical tracks of a gap
  into physical slots, counting the close pairs of tracks that remain, and
  ranking the gaps by them;
- `fenwick`, `crossing_sweep`: counting crossings between horizontal and
  vertical pieces of routed edges with one sweep;
- `ordered`, `graph`: ordered snapshots of maps and sets, and the graph
  identifiers.

Geometry in floating point stays outside the library: `app/` computes the
crossing costs of accesses, the hotness ranking of nets, coordinate ranks,
interval overlaps, distances against the pitch and the order keys of width
deficits, and hands the library plain values.

`tests/` exercises the library on concrete layouts.
