# pachadb

An immutable graph database of facts (`entity field value`), queried with a
small Datalog, with its behaviour stated in Verus contracts and proved.

- `src/engine.rs`, `src/fixpoint.rs`: terms, substitutions, unification and the
  bottom-up solver; `solve` returns the least model of its rules.
- `src/grammar.rs`, `src/ast.rs`, `src/parser.rs`, `src/nanolog_parser.rs`: the
  query syntax and its translation into rules.
- `src/query_planner.rs`, `src/query_executor.rs`, `src/index.rs`,
  `src/backend/memory.rs`, `src/tx_manager.rs`, `src/db.rs`: planning, index
  scans, the in-memory store, index and consolidator, transactions, and the
  database itself.
- `src/repl.rs`: the decisions of an interactive session with the engine.
- `src/scanner.rs`: turning a listing of index keys and their facts into fact
  rules up to a transaction.
- `src/answers.rs`: what a query answers over a consistent database: the rows
  of its head under every substitution that makes its body stored facts.
- `src/laws.rs`: properties of the library as a whole (what a query sees of
  what was stated, what a commit keeps, what consolidation keeps).
- `app/`: the `pacha` command line (HTTP client and the interactive session).
