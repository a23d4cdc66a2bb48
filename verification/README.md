# treebolt

Name resolution and scope analysis over a SQL syntax tree, verified with Verus.

The resolver walks a statement, opens a scope for every nested query, derived
table, CTE and set-operation branch, and records for each scope its sources,
its selected columns with their dependency sets, and the columns it uses in
joins, filters, grouping and sorting. The statement itself is left as it
was: the source each column reference resolved to is reported through the
scopes' dependency and role-tagged column sets.

## Layout

- `src/ast.rs` — the syntax tree the resolver reads: queries, CTEs, set
  operations, SELECT blocks, FROM items and joins, and expressions reduced to
  column references, subqueries, function calls and operand lists.
- `src/schema/` — `TableSchema` and the `SchemaProvider` trait.
- `src/resolve/mod.rs` — `Resolver`, `ResolutionContext` (scope arena, active
  scope, visible chain, accumulator stack) and the tree invariants.
- `src/resolve/{query,select,from,expr,function,column}.rs` — the resolution of
  each construct, each with its contract.
- `src/resolve/refs.rs`, `rewrite.rs`, `failures.rs` — what a tree references,
  the qualified form that resolution computes beside it, and which errors it
  can end in.
- `src/resolve/laws.rs` — properties spanning several operations.
- `tests/` — scenarios run against the compiled library.
- `app/lib.rs` — conversion of `sqlparser` statements into the resolver's tree
  (query bodies other than SELECT blocks, parenthesised queries and set
  operations become empty SELECT blocks; nested joins and `UNPIVOT`
  expressions in FROM are reported as unsupported table factors);
  `app/json.rs` — the scope arena to and from JSON (serde copies of the scope types).
