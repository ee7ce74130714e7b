# graph_craft_proto

Proto networks: the flattened form of a node graph that sits between the
document graph and the executable node tree. The library sorts a network
topologically, renumbers it, inserts compose nodes for composed inputs, gives
nodes stable ids derived from their content, and infers the type of every node
from a registry of implementations. Every function of `src/` is verified with
Verus against a contract over mathematical models of the types.

Layout of `src/`:

- `types.rs`, `proto.rs`: the data types (node ids, types, values, proto nodes
  and networks) with their models, `map_ids`, `value`, `new_function_args`.
- `graph.rs`: paths, reachability, cycles and topological orders over
  adjacency lists.
- `sort.rs`: the dependency graph of a network and `topological_sort`, whose
  result is specified exactly as a depth-first search (`dfs_order`).
- `reorder.rs`, `renumber.rs`: `reorder_ids`, the sortedness of its result and
  its stability (renumbering twice is renumbering once).
- `edges.rs`: the outwards and inwards edge maps and `replace_node_id`.
- `resolve.rs`: `resolve_inputs`, which fails only when the network has a
  cycle reachable from its output.
- `encode.rs`, `stable.rs`: the bytes a stable id is hashed from, the hash
  (rustc-hash's `FxHasher`) and `generate_stable_node_ids`.
- `typecheck.rs`, `typing.rs`: type compatibility, generic substitution and the
  `TypingContext` with `infer` and `update`.
- `report.rs`, `listing.rs`, `text.rs`: the texts of errors, signatures and
  networks.

`app/` holds serialisable copies of the types, the `Display` and `Debug`
implementations built on the library's texts, and the construction of a typing
context from a registry kept in hash maps.
