# fsm_rs

A table-style finite state machine definition language with
compile-time exhaustiveness, verified with Verus.

The library (`src/`) takes a machine definition as token trees and
produces either diagnostics or a machine plan; every step carries a
contract:

- `tokens` — the token trees a definition is written in.
- `parse` — the grammar, as spec functions over tokens, and the parser
  proved to follow it; whether a run of tokens is a Rust type is asked of
  `syn`, the one call into an outside crate.
- `model` — the parsed definition and its mathematical form.
- `tree` — the state hierarchy flattened in pre-order: leaves, depths,
  initial-leaf resolution, and the exit/entry paths through the least
  common ancestor.
- `coverage` — which (leaf, event) pairs each row covers and how
  specific it is.
- `validate` — names, initial states, method roles, unreachable rows and
  exhaustiveness; every problem is reported.
- `plan` — the machine plan: leaf states, events, context-trait methods
  and, per leaf, the rows in dispatch order with their hook sequences.
- `runtime` — the dispatch decisions over a plan for an event, and the
  error when nothing fires (the code rendered in `app/` follows the same
  arms in the same order).
- `expand` — row initial markers, validation and planning in one step.
- `error` — diagnostics and their texts.

`app/` holds the `proc_macro2` side: converting token streams, rendering a
plan as Rust code with `quote`, and turning diagnostics into compile
errors.
