# halfphi

Switch-level simulation and analysis of a photographed die, verified with
Verus. A traced chip is a set of polygons, transistors and names; the library
reads those three files, decodes the netlist they describe, and simulates it
as a network of switches.

- `src/source.rs` reads the JavaScript literals of the die files; `src/chip.rs`
  turns them into a netlist blob and the die's geometry (`parse`, and
  `parse_checked`, which also answers files the reader cannot get past with an
  error).
- `src/netlist.rs` decodes a blob into an immutable topology with CSR
  adjacency (`Netlist::decode`, and `Netlist::decode_checked` for blobs that
  may describe more than a netlist can index), built by `src/csr.rs`.
- `src/engine.rs` is the queue-driven solver (`Engine`); `src/slice.rs` is the
  solver as a kernel for 64 machines at once, one per bit of a `u64`. Charge is
  stored, so a settled state depends on the path taken: the kernel agrees with
  the engine on program results, not on every intermediate level.
- `src/bitset.rs` and `src/text.rs` are the small pieces underneath.
- `src/laws.rs` and `src/lanes.rs` hold the properties that span operations:
  decoding reads back what parsing wrote, settling never drives a rail, the
  unused counters stay put, pulldown beats pullup, and no lane of the sliced
  kernel influences another.
- `app/` reads die files from disk and prints reports (the counts in them come
  from the library: `Parsed::layer_counts`, `Netlist::pullup_count`,
  `Engine::high_count`); `tests/` exercises the
  library on small hand-written dies.

The library carries no die data: the caller supplies the bytes.
