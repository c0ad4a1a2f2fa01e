# egui_snarl

A node-graph container: nodes at positions, wires from output pins to input
pins, and groups that nest nodes and other groups. Every operation carries a
contract that Verus checks.

Layout:

- `src/arena.rs`: keyed slot storage; keys are stable and the most recently
  freed key is handed out first.
- `src/wires.rs`: the set of wires, kept in a `HashSet` with egui's `ahash`
  hasher; the set operations it uses are the trusted wrappers of the crate.
- `src/snarl.rs`: the graph: nodes, wires, groups, their invariant (every wire
  joins existing nodes, group parents exist and never form a cycle), all
  operations, and `Snarl::from_parts`, which builds a graph from listed
  parts and refuses those that break the invariant.
- `src/iter.rs`: iterators over the nodes in key order.
- `src/pins.rs`: a pin with the pins wired to it.
- `src/laws.rs`: properties across operations, proved.
- `app/`: serde copies of the id types and a serialisable snapshot of a graph,
  read back through `Snarl::from_parts`.
