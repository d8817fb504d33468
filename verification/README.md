# sa303_core

Rigging calculations for SA303 line-array clusters.

- `src/` is the verified library (Verus). It holds the parts of the
  calculation that decide rather than measure: which shipped catalogue
  entries are protected and which ones an update removes, how a cluster's
  references resolve against the catalogue, the topology of each joint, which
  pick-up holes a request offers and which one is kept, which worst cases are
  retained over all clusters, and which definitions an audit export carries.
  Every public function states its result in its `ensures`; the properties
  that span several calls are public proof functions.
- `app/` is ordinary Rust around it: JSON persistence in a data directory, the
  shipped catalogue, the commands the interface calls, and everything computed
  on floating-point magnitudes (joint geometry, cable tensions, the sandwich
  check, the wavefront sculpture criteria), which hands the library the
  integers it decides on (ranks, tenths of a degree, counts).
- `tests/` runs the library on concrete values.
