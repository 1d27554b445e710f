# seaflowbdd

A verified engine for Context-Free-Language Ordered Binary Decision Diagrams
(CFLOBDDs): boolean functions over `2^level` variables, built, combined,
restricted, evaluated and counted through a hash-consed canonical store.
The library's logic is verified with Verus. Its calls into `smallvec`,
`hashbrown`, `rustc-hash` and std's `HashMap` go through small trusted
wrappers (`#[verifier::external_body]`) whose contracts are assumed, not
proved; each states only what the outside crate's source shows.

## Model

A `Manager` holds a store of node records and a store of return maps. A
node of level `k` reads an assignment of `2^k` booleans and picks one of its
exits (`semantics::exit_at`): a leaf reads one boolean; an internal node
sends the left half through its A-connection, which selects a B-connection,
and the right half through that B-connection, whose return map names the
exit. A `Bdd` is a root node at the manager's top level together with a
value map from the root's exits to `0`/`1`; `Manager::value` is its meaning.

## Layout

- `semantics`: the store model, well-formedness, and reduction maps.
- `node`, `return_map`: the hash-consed stores and their dedup tables.
- `manager`: `Manager`, `Bdd`, the constants and projections, `evaluate`,
  `eq`, and the laws on canonical equality.
- `canonical`: canonical form and the proof that canonical nodes denoting
  the same function are the same node.
- `reduce`: Reduce, which merges exits and keeps canonical form.
- `pair_product`: PairProduct, `apply` and the named boolean operations,
  with their algebraic laws.
- `restrict`: `restrict`, `compose`, `exists_var`, `forall_var`, with
  their laws.
- `path_count`, `counting`: satisfying-assignment counts and their laws.
- `reach`: reachable nodes and edges of a `Bdd`.

## Guarantees

Every operation returns a `Bdd` whose value on each assignment is stated in
its contract, and keeps the canonical form of its operands
(`Manager::is_canonical`). Canonical `Bdd`s of one manager that denote the
same function are equal (`Manager::lemma_canonical_eq`), so `eq` decides
semantic equality.

`Manager::new` stores the return maps `[0]`, `[1]` and `[0, 1]`, so the
constants and projections add no return map (`mk_true`, `mk_false` and
`mk_proj` keep `return_map_count`).

Tests under `tests/` run the library on concrete inputs.
