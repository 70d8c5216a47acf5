use lau_provenance_chain::{NumberTexts, ProvenanceChain, ProvenanceEntry, ProvenanceError, ProvenanceExporter};
use lau_provenance_chain::{ProvenanceQuery, ProvenanceStore};
use lau_provenance_chain::{DecisionNode, DecisionTree};

const EPSILON: f64 = 1e-9;

fn make_entry(agent: &str, decision: &str, ts: u64, conf: f64, cb: f64, ca: f64) -> ProvenanceEntry {
    let mut e = ProvenanceEntry::new(agent, decision, ts);
    e.timestamp = ts;
    e.confidence = conf.to_bits();
    e.conservation_before = cb.to_bits();
    e.conservation_after = ca.to_bits();
    e.room_id = "room-1".to_string();
    e
}

fn conf(bits: u64) -> f64 {
    f64::from_bits(bits)
}

fn node(decision: &str, confidence: f64, children: Vec<DecisionNode>) -> DecisionNode {
    DecisionNode { decision: decision.into(), confidence: confidence.to_bits(), children }
}

fn numbers_for(chain: &ProvenanceChain) -> Vec<NumberTexts> {
    chain
        .entries
        .iter()
        .map(|e| NumberTexts {
            confidence: format!("{}", f64::from_bits(e.confidence)),
            conservation_before: format!("{}", f64::from_bits(e.conservation_before)),
            conservation_after: format!("{}", f64::from_bits(e.conservation_after)),
        })
        .collect()
}

// --- ProvenanceEntry tests ---

#[test]
fn entry_new_has_id() {
    let e = ProvenanceEntry::new("agent-a", "decide something", 1);
    assert!(!e.id.is_empty());
    assert!(e.id.starts_with("pe-"));
    assert_eq!(e.agent_id, "agent-a");
    assert_eq!(e.decision, "decide something");
}

#[test]
fn entry_with_alternatives() {
    let mut e = ProvenanceEntry::new("a", "d", 1);
    e.with_alternatives(vec!["alt1".into(), "alt2".into()]);
    assert_eq!(e.alternatives.len(), 2);
    assert_eq!(e.alternatives[0], "alt1");
}

#[test]
fn entry_with_reasoning() {
    let mut e = ProvenanceEntry::new("a", "d", 1);
    e.with_reasoning("because reasons");
    assert_eq!(e.reasoning, "because reasons");
}

#[test]
fn entry_good_decision_true() {
    let e = make_entry("a", "d", 100, 0.8, 10.0, 10.0);
    assert!(e.was_good_decision());
}

#[test]
fn entry_good_decision_false() {
    let e = make_entry("a", "d", 100, 0.5, 10.0, 10.0);
    assert!(!e.was_good_decision());
}

#[test]
fn entry_good_decision_boundary() {
    let e = make_entry("a", "d", 100, 0.7, 10.0, 10.0);
    assert!(!e.was_good_decision()); // strictly > 0.7
}

#[test]
fn entry_tile_id_optional() {
    let mut e = ProvenanceEntry::new("a", "d", 1);
    assert!(e.tile_id.is_none());
    e.tile_id = Some("tile-42".into());
    assert_eq!(e.tile_id.as_deref(), Some("tile-42"));
}

#[test]
fn entry_inputs_outputs() {
    let mut e = ProvenanceEntry::new("a", "d", 1);
    e.inputs = vec!["sensor-1".into()];
    e.outputs = vec!["action-move".into(), "action-turn".into()];
    assert_eq!(e.inputs.len(), 1);
    assert_eq!(e.outputs.len(), 2);
}

// --- ProvenanceChain tests ---

#[test]
fn chain_new() {
    let c = ProvenanceChain::new("chain-1");
    assert_eq!(c.chain_id, "chain-1");
    assert!(c.entries.is_empty());
}

#[test]
fn chain_push_and_last() {
    let mut c = ProvenanceChain::new("c1");
    let e1 = make_entry("a", "d1", 100, 0.9, 10.0, 10.0);
    c.push(e1);
    assert_eq!(c.entries.len(), 1);
    assert_eq!(c.last().unwrap().decision, "d1");
}

#[test]
fn chain_last_empty() {
    let c = ProvenanceChain::new("c1");
    assert!(c.last().is_none());
}

#[test]
fn chain_by_agent() {
    let mut c = ProvenanceChain::new("c1");
    c.push(make_entry("agent-a", "d1", 100, 0.9, 0.0, 0.0));
    c.push(make_entry("agent-b", "d2", 101, 0.9, 0.0, 0.0));
    c.push(make_entry("agent-a", "d3", 102, 0.9, 0.0, 0.0));
    let a_entries = c.by_agent("agent-a");
    assert_eq!(a_entries.len(), 2);
    assert!(a_entries.iter().all(|e| e.agent_id == "agent-a"));
}

#[test]
fn chain_by_room() {
    let mut c = ProvenanceChain::new("c1");
    c.push(make_entry("a", "d1", 100, 0.9, 0.0, 0.0));
    let mut e2 = make_entry("a", "d2", 101, 0.9, 0.0, 0.0);
    e2.room_id = "room-2".to_string();
    c.push(e2);
    assert_eq!(c.by_room("room-1").len(), 1);
    assert_eq!(c.by_room("room-2").len(), 1);
}

#[test]
fn chain_by_time_range() {
    let mut c = ProvenanceChain::new("c1");
    c.push(make_entry("a", "d1", 100, 0.9, 0.0, 0.0));
    c.push(make_entry("a", "d2", 200, 0.9, 0.0, 0.0));
    c.push(make_entry("a", "d3", 300, 0.9, 0.0, 0.0));
    let r = c.by_time_range(150, 250);
    assert_eq!(r.len(), 1);
    assert_eq!(r[0].decision, "d2");
}

#[test]
fn chain_append_only() {
    let mut c = ProvenanceChain::new("c1");
    c.push(make_entry("a", "d1", 100, 0.9, 0.0, 0.0));
    let ts = c.entries[0].timestamp;
    c.push(make_entry("a", "d2", 200, 0.9, 0.0, 0.0));
    // First entry unchanged
    assert_eq!(c.entries[0].timestamp, ts);
    assert_eq!(c.entries[0].decision, "d1");
}

// --- DecisionTree / DecisionNode tests ---

#[test]
fn decision_node_is_leaf() {
    let n = node("d", 0.5, vec![]);
    assert!(n.is_leaf());
}

#[test]
fn decision_node_not_leaf() {
    let n = node("d", 0.5, vec![node("child", 0.6, vec![])]);
    assert!(!n.is_leaf());
}

#[test]
fn decision_node_best_child() {
    let n = node(
        "d",
        0.5,
        vec![node("c1", 0.3, vec![]), node("c2", 0.9, vec![]), node("c3", 0.6, vec![])],
    );
    let best = n.best_child().unwrap();
    assert_eq!(best.decision, "c2");
}

#[test]
fn decision_node_best_child_none() {
    let n = node("d", 0.5, vec![]);
    assert!(n.best_child().is_none());
}

#[test]
fn tree_depth_single() {
    let tree = DecisionTree { root: node("root", 0.5, vec![]) };
    assert_eq!(tree.depth(), 1);
}

#[test]
fn tree_depth_nested() {
    let tree = DecisionTree {
        root: node("root", 0.5, vec![node("child", 0.6, vec![node("grandchild", 0.7, vec![])])]),
    };
    assert_eq!(tree.depth(), 3);
}

#[test]
fn tree_node_count() {
    let tree = DecisionTree {
        root: node("root", 0.5, vec![node("c1", 0.3, vec![]), node("c2", 0.4, vec![])]),
    };
    assert_eq!(tree.node_count(), 3);
}

#[test]
fn tree_find_exists() {
    let tree = DecisionTree { root: node("root", 0.5, vec![node("target", 0.8, vec![])]) };
    assert!(tree.find("target").is_some());
    assert_eq!(conf(tree.find("target").unwrap().confidence), 0.8);
}

#[test]
fn tree_find_missing() {
    let tree = DecisionTree { root: node("root", 0.5, vec![]) };
    assert!(tree.find("nonexistent").is_none());
}

#[test]
fn tree_path_to() {
    let tree = DecisionTree { root: node("A", 0.5, vec![node("B", 0.6, vec![node("C", 0.7, vec![])])]) };
    let path = tree.path_to("C");
    assert_eq!(path.len(), 3);
    assert_eq!(path[0].decision, "A");
    assert_eq!(path[1].decision, "B");
    assert_eq!(path[2].decision, "C");
}

#[test]
fn tree_path_to_missing() {
    let tree = DecisionTree { root: node("root", 0.5, vec![]) };
    let path = tree.path_to("missing");
    assert!(path.is_empty());
}

#[test]
fn chain_decision_tree_from_entries() {
    let mut c = ProvenanceChain::new("c1");
    c.push(make_entry("a", "decide-A", 100, 0.8, 0.0, 0.0));
    c.push(make_entry("a", "decide-B", 200, 0.9, 0.0, 0.0));
    let tree = c.decision_tree();
    assert_eq!(tree.root.decision, "decide-A");
    assert!(!tree.root.children.is_empty());
}

// --- ProvenanceQuery tests ---

#[test]
fn query_by_agent() {
    let mut c = ProvenanceChain::new("c1");
    c.push(make_entry("a", "d1", 100, 0.9, 0.0, 0.0));
    c.push(make_entry("b", "d2", 101, 0.9, 0.0, 0.0));
    let q = ProvenanceQuery { agent_id: Some("a".into()), ..Default::default() };
    let r = q.execute(&c);
    assert_eq!(r.len(), 1);
    assert_eq!(r[0].agent_id, "a");
}

#[test]
fn query_by_min_confidence() {
    let mut c = ProvenanceChain::new("c1");
    c.push(make_entry("a", "d1", 100, 0.5, 0.0, 0.0));
    c.push(make_entry("a", "d2", 101, 0.9, 0.0, 0.0));
    let q = ProvenanceQuery { min_confidence: Some(0.8f64.to_bits()), ..Default::default() };
    let r = q.execute(&c);
    assert_eq!(r.len(), 1);
    assert_eq!(r[0].decision, "d2");
}

#[test]
fn query_by_decision_contains() {
    let mut c = ProvenanceChain::new("c1");
    c.push(make_entry("a", "move north", 100, 0.9, 0.0, 0.0));
    c.push(make_entry("a", "turn left", 101, 0.9, 0.0, 0.0));
    let q = ProvenanceQuery { decision_contains: Some("move".into()), ..Default::default() };
    let r = q.execute(&c);
    assert_eq!(r.len(), 1);
    assert_eq!(r[0].decision, "move north");
}

#[test]
fn query_with_limit() {
    let mut c = ProvenanceChain::new("c1");
    for i in 0..10 {
        c.push(make_entry("a", &format!("d{}", i), 100 + i, 0.9, 0.0, 0.0));
    }
    let q = ProvenanceQuery { limit: Some(3), ..Default::default() };
    assert_eq!(q.execute(&c).len(), 3);
}

#[test]
fn query_combined_filters() {
    let mut c = ProvenanceChain::new("c1");
    c.push(make_entry("a", "move", 100, 0.9, 0.0, 0.0));
    c.push(make_entry("b", "move", 101, 0.5, 0.0, 0.0));
    c.push(make_entry("a", "stay", 102, 0.9, 0.0, 0.0));
    let q = ProvenanceQuery {
        agent_id: Some("a".into()),
        min_confidence: Some(0.8f64.to_bits()),
        decision_contains: Some("move".into()),
        ..Default::default()
    };
    let r = q.execute(&c);
    assert_eq!(r.len(), 1);
    assert_eq!(r[0].agent_id, "a");
}

#[test]
fn query_no_match() {
    let c = ProvenanceChain::new("c1");
    let q = ProvenanceQuery { agent_id: Some("nobody".into()), ..Default::default() };
    assert!(q.execute(&c).is_empty());
}

#[test]
fn query_by_time_range() {
    let mut c = ProvenanceChain::new("c1");
    c.push(make_entry("a", "d1", 100, 0.9, 0.0, 0.0));
    c.push(make_entry("a", "d2", 200, 0.9, 0.0, 0.0));
    let q = ProvenanceQuery { time_range: Some((50, 150)), ..Default::default() };
    let r = q.execute(&c);
    assert_eq!(r.len(), 1);
    assert_eq!(r[0].decision, "d1");
}

// --- ProvenanceStore tests ---

#[test]
fn store_record_and_get() {
    let mut store = ProvenanceStore::new(100);
    let e = make_entry("a", "d1", 100, 0.9, 0.0, 0.0);
    store.record(e);
    // The chain key is "a-room-1"
    let chain = store.get_chain("a-room-1");
    assert!(chain.is_some());
    assert_eq!(chain.unwrap().entries.len(), 1);
}

#[test]
fn store_get_missing_chain() {
    let store = ProvenanceStore::new(100);
    assert!(store.get_chain("nonexistent").is_none());
}

#[test]
fn store_eviction() {
    let mut store = ProvenanceStore::new(3);
    for i in 0..5 {
        store.record(make_entry("a", &format!("d{}", i), 100 + i, 0.9, 0.0, 0.0));
    }
    let chain = store.get_chain("a-room-1").unwrap();
    assert_eq!(chain.entries.len(), 3);
    // Oldest evicted: d0, d1 gone
    assert_eq!(chain.entries[0].decision, "d2");
    assert_eq!(chain.entries[2].decision, "d4");
}

#[test]
fn store_query_across_chains() {
    let mut store = ProvenanceStore::new(100);
    let mut e1 = make_entry("a", "d1", 100, 0.9, 0.0, 0.0);
    e1.room_id = "room-A".into();
    let mut e2 = make_entry("a", "d2", 101, 0.9, 0.0, 0.0);
    e2.room_id = "room-B".into();
    store.record(e1);
    store.record(e2);
    let q = ProvenanceQuery { agent_id: Some("a".into()), ..Default::default() };
    assert_eq!(store.query(&q).len(), 2);
}

#[test]
fn store_agent_history() {
    let mut store = ProvenanceStore::new(100);
    store.record(make_entry("a", "d1", 100, 0.9, 0.0, 0.0));
    store.record(make_entry("b", "d2", 101, 0.9, 0.0, 0.0));
    store.record(make_entry("a", "d3", 102, 0.9, 0.0, 0.0));
    let hist = store.agent_history("a");
    assert_eq!(hist.len(), 2);
}

#[test]
fn store_room_history() {
    let mut store = ProvenanceStore::new(100);
    store.record(make_entry("a", "d1", 100, 0.9, 0.0, 0.0));
    let mut e2 = make_entry("a", "d2", 101, 0.9, 0.0, 0.0);
    e2.room_id = "room-2".into();
    store.record(e2);
    let hist = store.room_history("room-1");
    assert_eq!(hist.len(), 1);
}

// --- Audit tests ---

#[test]
fn audit_empty_store() {
    let store = ProvenanceStore::new(100);
    let audit = store.audit();
    assert_eq!(audit.total_entries, 0);
    assert_eq!(audit.total_chains, 0);
    assert!(audit.agents_seen.is_empty());
    assert!(audit.rooms_seen.is_empty());
    assert!(audit.confidence_distribution.is_empty());
    assert!(audit.gaps.is_empty());
    assert!(audit.is_continuous());
}

#[test]
fn audit_counts_entries_and_chains() {
    let mut store = ProvenanceStore::new(100);
    store.record(make_entry("a", "d1", 100, 0.9, 10.0, 12.0));
    let mut e2 = make_entry("b", "d2", 101, 0.8, 0.0, 0.0);
    e2.room_id = "room-2".into();
    store.record(e2);
    let audit = store.audit();
    assert_eq!(audit.total_entries, 2);
    assert_eq!(audit.total_chains, 2);
}

#[test]
fn audit_agents_and_rooms() {
    let mut store = ProvenanceStore::new(100);
    store.record(make_entry("a", "d1", 100, 0.9, 0.0, 0.0));
    store.record(make_entry("b", "d2", 101, 0.9, 0.0, 0.0));
    let audit = store.audit();
    assert_eq!(audit.agents_seen.len(), 2);
    assert!(audit.agents_seen.contains(&"a".to_string()));
    assert!(audit.agents_seen.contains(&"b".to_string()));
}

#[test]
fn audit_confidence_distribution() {
    let mut store = ProvenanceStore::new(100);
    store.record(make_entry("a", "d1", 100, 0.9, 0.0, 0.0));
    store.record(make_entry("a", "d2", 101, 0.5, 0.0, 0.0));
    let audit = store.audit();
    assert_eq!(audit.confidence_distribution.len(), 2);
    assert!(audit.confidence_distribution.contains(&0.9f64.to_bits()));
    assert!(audit.confidence_distribution.contains(&0.5f64.to_bits()));
}

#[test]
fn audit_detects_gaps() {
    let mut store = ProvenanceStore::new(100);
    store.record(make_entry("a", "d1", 100, 0.9, 0.0, 0.0));
    store.record(make_entry("a", "d2", 5000, 0.9, 0.0, 0.0));
    let audit = store.audit();
    assert!(!audit.gaps.is_empty());
    assert!(!audit.is_continuous());
}

#[test]
fn audit_no_gaps_when_continuous() {
    let mut store = ProvenanceStore::new(100);
    store.record(make_entry("a", "d1", 100, 0.9, 0.0, 0.0));
    store.record(make_entry("a", "d2", 200, 0.9, 0.0, 0.0));
    let audit = store.audit();
    assert!(audit.gaps.is_empty());
    assert!(audit.is_continuous());
}

#[test]
fn decision_tree_depth_bounded_by_entries() {
    let mut chain = ProvenanceChain::new("c1");
    for i in 0..5 {
        chain.push(make_entry("a", &format!("d{}", i), 100 + i, 0.8, 0.0, 0.0));
    }
    let tree = chain.decision_tree();
    assert!(tree.depth() <= chain.entries.len());
}

#[test]
fn query_by_agent_returns_only_that_agent() {
    let mut c = ProvenanceChain::new("c1");
    c.push(make_entry("alice", "d1", 100, 0.9, 0.0, 0.0));
    c.push(make_entry("bob", "d2", 101, 0.9, 0.0, 0.0));
    c.push(make_entry("alice", "d3", 102, 0.9, 0.0, 0.0));
    let r = c.by_agent("alice");
    assert!(r.iter().all(|e| e.agent_id == "alice"));
}

#[test]
fn query_by_time_range_correctness() {
    let mut c = ProvenanceChain::new("c1");
    c.push(make_entry("a", "early", 50, 0.9, 0.0, 0.0));
    c.push(make_entry("a", "mid", 150, 0.9, 0.0, 0.0));
    c.push(make_entry("a", "late", 250, 0.9, 0.0, 0.0));
    let r = c.by_time_range(100, 200);
    assert!(r.iter().all(|e| e.timestamp >= 100 && e.timestamp <= 200));
    assert_eq!(r.len(), 1);
}

#[test]
fn provenance_chain_is_append_only() {
    let mut c = ProvenanceChain::new("c1");
    c.push(make_entry("a", "first", 100, 0.9, 5.0, 5.0));
    let orig_id = c.entries[0].id.clone();
    c.push(make_entry("a", "second", 200, 0.8, 5.0, 5.0));
    assert_eq!(c.entries[0].id, orig_id);
    assert_eq!(c.entries[0].decision, "first");
}

// --- Exporter tests ---

#[test]
fn csv_export_columns() {
    let mut c = ProvenanceChain::new("c1");
    c.push(make_entry("a", "d1", 100, 0.9, 0.0, 0.0));
    let csv = ProvenanceExporter::to_csv(&c, &numbers_for(&c));
    let header_line = csv.lines().next().unwrap();
    let col_count = header_line.split(',').count();
    assert_eq!(col_count, 10); // 10 columns
    // Data row should also have 10 columns
    let data_line = csv.lines().nth(1).unwrap();
    assert_eq!(data_line.split(',').count(), 10);
}

#[test]
fn csv_export_multiple_entries() {
    let mut c = ProvenanceChain::new("c1");
    c.push(make_entry("a", "d1", 100, 0.9, 0.0, 0.0));
    c.push(make_entry("b", "d2", 200, 0.8, 0.0, 0.0));
    let csv = ProvenanceExporter::to_csv(&c, &numbers_for(&c));
    assert_eq!(csv.lines().count(), 3); // header + 2 data rows
}

#[test]
fn mermaid_starts_with_graph() {
    let mut c = ProvenanceChain::new("c1");
    c.push(make_entry("a", "d1", 100, 0.9, 0.0, 0.0));
    let mermaid = ProvenanceExporter::to_mermaid(&c);
    assert!(mermaid.starts_with("graph"));
}

#[test]
fn mermaid_has_nodes() {
    let mut c = ProvenanceChain::new("c1");
    c.push(make_entry("a", "decide", 100, 0.9, 0.0, 0.0));
    c.push(make_entry("a", "act", 200, 0.8, 0.0, 0.0));
    let mermaid = ProvenanceExporter::to_mermaid(&c);
    assert!(mermaid.contains("N0"));
    assert!(mermaid.contains("N1"));
    assert!(mermaid.contains("-->"));
}

#[test]
fn mermaid_empty_chain() {
    let c = ProvenanceChain::new("c1");
    let mermaid = ProvenanceExporter::to_mermaid(&c);
    assert!(mermaid.starts_with("graph"));
}

// --- Error tests ---

#[test]
fn error_chain_not_found_display() {
    let err = ProvenanceError::ChainNotFound("x".into());
    assert!(err.to_string().contains("x"));
}

#[test]
fn error_variants() {
    let _ = ProvenanceError::EntryTooLarge(999);
    let _ = ProvenanceError::StorageFull;
}

// --- Additional coverage ---

#[test]
fn store_max_entries_eviction_oldest_first() {
    let mut store = ProvenanceStore::new(2);
    store.record(make_entry("a", "first", 100, 0.9, 0.0, 0.0));
    store.record(make_entry("a", "second", 200, 0.9, 0.0, 0.0));
    store.record(make_entry("a", "third", 300, 0.9, 0.0, 0.0));
    let chain = store.get_chain("a-room-1").unwrap();
    assert_eq!(chain.entries.len(), 2);
    assert_eq!(chain.entries[0].decision, "second");
    assert_eq!(chain.entries[1].decision, "third");
}

#[test]
fn decision_tree_best_child_returns_highest_confidence() {
    let n = node(
        "root",
        0.5,
        vec![node("low", 0.2, vec![]), node("high", 0.95, vec![]), node("mid", 0.6, vec![])],
    );
    let best = n.best_child().unwrap();
    assert_eq!(best.decision, "high");
    assert!((conf(best.confidence) - 0.95).abs() < EPSILON);
}

#[test]
fn empty_store_audit_zero_counts() {
    let store = ProvenanceStore::new(100);
    let audit = store.audit();
    assert_eq!(audit.total_entries, 0);
    assert_eq!(audit.total_chains, 0);
}

#[test]
fn entry_timestamp_auto_set() {
    let e = ProvenanceEntry::new("a", "d", 1);
    assert!(e.timestamp > 0);
}

#[test]
fn chain_decision_tree_empty() {
    let c = ProvenanceChain::new("c1");
    let tree = c.decision_tree();
    assert!(tree.root.decision.is_empty());
}

#[test]
fn query_empty_chain() {
    let c = ProvenanceChain::new("c1");
    let q = ProvenanceQuery::default();
    assert!(q.execute(&c).is_empty());
}

#[test]
fn query_by_room_filter() {
    let mut c = ProvenanceChain::new("c1");
    c.push(make_entry("a", "d1", 100, 0.9, 0.0, 0.0));
    let mut e2 = make_entry("a", "d2", 101, 0.9, 0.0, 0.0);
    e2.room_id = "room-99".into();
    c.push(e2);
    let q = ProvenanceQuery { room_id: Some("room-1".into()), ..Default::default() };
    let r = q.execute(&c);
    assert_eq!(r.len(), 1);
    assert_eq!(r[0].room_id, "room-1");
}
