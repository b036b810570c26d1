# edgelink_core

The verified core of a Node-RED compatible flow runtime, written in Verus.

- `src/propex.rs`: property expressions (`msg.payload[0]["name"]`), their grammar
  as spec functions and a parser proved to follow it.
- `src/variant.rs`: the dynamic value model (`Variant`) with its mathematical
  view, navigation and update along property paths, object maps kept in key
  order, byte conversions, deep copy and equality.
- `src/topo.rs`: dependency ordering of flow elements (Kahn's algorithm), with
  proofs that every item is listed once and that dependencies are respected.
- `src/eid.rs`, `src/uid.rs`: element identifiers, their hexadecimal rendering
  and parsing, and fresh identifiers.
- `src/context.rs`: context-store keys such as `#:(file)::foo.bar`.
- `src/eval.rs`: evaluation of typed properties and of a flow's environment
  entries, `${NAME}` substitution in environment values, and where settings
  are read.
- `src/group.rs`, `src/registry.rs`: groups of nodes with their settings, and
  the registry of node types by name.
- `src/prop_triple.rs`, `src/flow.rs`, `src/json.rs`, `src/text.rs`: property
  types, flow kinds and wiring, and small text helpers.

`app/` holds what stays outside verification: command-line arguments,
configuration, JSON (de)serialisation, error messages, timers, floating-point
views of numbers and run-time type queries.
