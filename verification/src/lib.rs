//! Provenance chains for agent decisions: entries, append-only chains,
//! decision trees, queries, a keyed store with eviction, audits and exports.
pub mod text;
pub mod float_bits;
pub mod entry;
pub mod tree;
pub mod seq_facts;
pub mod chain;
pub mod query;
pub mod store;
pub mod export;
pub mod laws;

pub use chain::ProvenanceChain;
pub use entry::ProvenanceEntry;
pub use export::{NumberTexts, ProvenanceError, ProvenanceExporter};
pub use query::ProvenanceQuery;
pub use store::{ChainSlot, ProvenanceAudit, ProvenanceStore};
pub use tree::{DecisionNode, DecisionTree};
