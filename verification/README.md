# msg_sampling

Integer geometry and bookkeeping for procedural placement, verified with Verus.

- `src/tile.rs`: tile positions, and the order-preserving removal of repeated
  tiles (`dedup_tiles`) with its laws.
- `src/spawn.rs`: `SpawnPointSet`, a set of spawn points with region queries.
- `src/grid.rs`: `SampleGrid`, the background grid and active list of Bridson's
  Poisson disk sampling: which cells hold which samples, which samples are
  active, which samples a neighbor query reports, and when sampling stops.
- `app/`: the `f32` parts (weighted picking over a `rand` generator, the
  continuous geometry of Poisson disk sampling) and the Bevy types (`IVec2`,
  `Reflect`), built on the library.
