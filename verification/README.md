# lau_provenance_chain

Provenance chains for agent decisions, written in Verus: every decision is a
`ProvenanceEntry`; entries accumulate in append-only `ProvenanceChain`s; a
`ProvenanceStore` files chains under `<agent_id>-<room_id>` and keeps at most
a configured number of the newest entries per chain. Chains can be queried,
turned into a `DecisionTree`, audited, and exported as CSV or as a Mermaid
flowchart.

## Layout

- `src/` – the verified library.
  - `text.rs` – decimal rendering, substring search, escaping.
  - `float_bits.rs` – the IEEE-754 `<` relation on `f64` bit patterns.
  - `entry.rs`, `chain.rs`, `tree.rs`, `query.rs`, `store.rs`, `export.rs` –
    the data types and operations, each with its contract.
  - `laws.rs` – properties that span operations, proved.
- `tests/` – scenario tests and tests of edge cases.
- `app/` – unverified glue: the process-wide entry counter, floating-point
  arithmetic on conservation values, serde/JSON and the `f64` columns of the
  CSV export, and `Display` for errors.

Floating-point values (confidence, conservation before/after) are held in the
library as their `f64::to_bits` patterns; the library only compares them.
