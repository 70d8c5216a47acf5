use lau_provenance_chain::{NumberTexts, ProvenanceChain, ProvenanceEntry, ProvenanceError, ProvenanceExporter};
use lau_provenance_chain::float_bits::lt_bits;
use lau_provenance_chain::{ChainSlot, ProvenanceQuery, ProvenanceStore};
use lau_provenance_chain::text::{contains_str, decimal_string};
use lau_provenance_chain::{DecisionNode, DecisionTree};

fn entry(agent: &str, room: &str, decision: &str, ts: u64, conf: f64) -> ProvenanceEntry {
    let mut e = ProvenanceEntry::new_at(agent, decision, ts, ts);
    e.room_id = room.to_string();
    e.confidence = conf.to_bits();
    e
}

fn node(decision: &str, confidence: f64, children: Vec<DecisionNode>) -> DecisionNode {
    DecisionNode { decision: decision.into(), confidence: confidence.to_bits(), children }
}

#[test]
fn new_at_sets_id_and_time() {
    let e = ProvenanceEntry::new_at("agent", "go", 42, 1234);
    assert_eq!(e.id, "pe-42");
    assert_eq!(e.timestamp, 1234);
    assert_eq!(e.confidence, 0);
    assert!(e.alternatives.is_empty());
    assert!(e.room_id.is_empty());
}

#[test]
fn decimal_rendering() {
    assert_eq!(decimal_string(0), "0");
    assert_eq!(decimal_string(7), "7");
    assert_eq!(decimal_string(1050), "1050");
    assert_eq!(decimal_string(u64::MAX), u64::MAX.to_string());
}

#[test]
fn float_order_on_bits() {
    let b = |x: f64| x.to_bits();
    assert!(lt_bits(b(0.5), b(0.8)));
    assert!(!lt_bits(b(0.8), b(0.5)));
    assert!(lt_bits(b(-1.0), b(0.25)));
    assert!(lt_bits(b(-2.0), b(-1.0)));
    assert!(!lt_bits(b(-0.0), b(0.0)));
    assert!(!lt_bits(b(0.0), b(-0.0)));
    assert!(!lt_bits(b(f64::NAN), b(1.0)));
    assert!(!lt_bits(b(1.0), b(f64::NAN)));
    assert!(lt_bits(b(1.0), b(f64::INFINITY)));
    assert!(lt_bits(b(f64::NEG_INFINITY), b(-1e300)));
}

#[test]
fn good_decision_with_nan_is_false() {
    let e = entry("a", "r", "d", 1, f64::NAN);
    assert!(!e.was_good_decision());
    let e = entry("a", "r", "d", 1, 0.7000000001);
    assert!(e.was_good_decision());
}

#[test]
fn min_confidence_keeps_nan_and_equal() {
    let mut c = ProvenanceChain::new("c");
    c.push(entry("a", "r", "nan", 1, f64::NAN));
    c.push(entry("a", "r", "equal", 2, 0.8));
    c.push(entry("a", "r", "low", 3, 0.1));
    let q = ProvenanceQuery { min_confidence: Some(0.8f64.to_bits()), ..Default::default() };
    let r = q.execute(&c);
    let names: Vec<&str> = r.iter().map(|e| e.decision.as_str()).collect();
    assert_eq!(names, vec!["nan", "equal"]);
}

#[test]
fn empty_needle_matches_everything() {
    assert!(contains_str("abc", ""));
    assert!(contains_str("abc", "bc"));
    assert!(!contains_str("abc", "cb"));
    assert!(!contains_str("", "a"));
    let mut c = ProvenanceChain::new("c");
    c.push(entry("a", "r", "x", 1, 0.5));
    let q = ProvenanceQuery { decision_contains: Some(String::new()), ..Default::default() };
    assert_eq!(q.execute(&c).len(), 1);
}

#[test]
fn default_query_returns_every_entry_in_order() {
    let mut c = ProvenanceChain::new("c");
    for i in 0..4 {
        c.push(entry("a", "r", &format!("d{}", i), i, 0.5));
    }
    let r = ProvenanceQuery::default().execute(&c);
    let names: Vec<&str> = r.iter().map(|e| e.decision.as_str()).collect();
    assert_eq!(names, vec!["d0", "d1", "d2", "d3"]);
}

#[test]
fn best_child_tie_picks_last() {
    let n = node("r", 0.0, vec![node("a", 0.9, vec![]), node("b", 0.9, vec![]), node("c", 0.1, vec![])]);
    assert_eq!(n.best_child().unwrap().decision, "b");
}

#[test]
fn decision_tree_with_alternatives() {
    let mut c = ProvenanceChain::new("c");
    c.push(entry("a", "r", "e0", 1, 0.5));
    let mut e1 = entry("a", "r", "e1", 2, 0.6);
    e1.with_alternatives(vec!["x".into(), "y".into()]);
    c.push(e1);
    c.push(entry("a", "r", "e2", 3, 0.7));
    let t = c.decision_tree();
    assert_eq!(t.root.decision, "e0");
    assert_eq!(t.root.children.len(), 1);
    let n1 = &t.root.children[0];
    assert_eq!(n1.decision, "e1");
    assert_eq!(n1.children.len(), 2);
    assert_eq!(n1.children[0].decision, "x");
    assert_eq!(n1.children[0].confidence, 0);
    assert_eq!(n1.children[1].decision, "y");
    assert_eq!(n1.children[1].children[0].decision, "e2");
    // one level for e0, two for e1 (it has alternatives), one for e2
    assert_eq!(t.depth(), 4);
    assert_eq!(t.node_count(), 5);
    let path: Vec<&str> = t.path_to("e2").iter().map(|n| n.decision.as_str()).collect();
    assert_eq!(path, vec!["e0", "e1", "y", "e2"]);
    assert_eq!(t.find("y").unwrap().children.len(), 1);
}

#[test]
fn decision_tree_depth_equals_length_without_alternatives() {
    let mut c = ProvenanceChain::new("c");
    for i in 0..6 {
        c.push(entry("a", "r", &format!("d{}", i), i, 0.5));
    }
    assert_eq!(c.decision_tree().depth(), 6);
}

#[test]
fn find_returns_first_in_preorder() {
    let t = DecisionTree {
        root: node("r", 0.0, vec![node("a", 0.1, vec![node("t", 0.2, vec![])]), node("t", 0.3, vec![])]),
    };
    assert_eq!(t.find("t").unwrap().confidence, 0.2f64.to_bits());
    let p = t.path_to("t");
    assert_eq!(p.len(), 3);
    assert_eq!(p[2].confidence, 0.2f64.to_bits());
    assert_eq!(t.path_to("r").len(), 1);
}

#[test]
fn clone_is_deep() {
    let t = DecisionTree { root: node("r", 0.4, vec![node("a", 0.1, vec![node("b", 0.2, vec![])])]) };
    let u = t.clone();
    assert_eq!(u.root.children[0].children[0].decision, "b");
    assert_eq!(u.node_count(), 3);
}

#[test]
fn record_files_by_agent_and_room() {
    let mut s = ProvenanceStore::new(10);
    s.record(entry("a", "r1", "d1", 1, 0.5));
    s.record(entry("a", "r1", "d2", 2, 0.5));
    s.record(entry("a", "r2", "d3", 3, 0.5));
    assert_eq!(s.chains.len(), 2);
    let c = s.get_chain("a-r1").unwrap();
    assert_eq!(c.chain_id, "chain-a");
    assert_eq!(c.entries.len(), 2);
    assert_eq!(c.last().unwrap().decision, "d2");
    assert_eq!(s.get_chain("a-r2").unwrap().entries.len(), 1);
}

#[test]
fn record_with_zero_capacity_keeps_empty_chain() {
    let mut s = ProvenanceStore::new(0);
    s.record(entry("a", "r", "d", 1, 0.5));
    let c = s.get_chain("a-r").unwrap();
    assert!(c.entries.is_empty());
}

#[test]
fn store_query_limit_applies_across_chains() {
    let mut s = ProvenanceStore::new(10);
    s.record(entry("a", "r1", "d1", 1, 0.5));
    s.record(entry("a", "r2", "d2", 2, 0.5));
    s.record(entry("a", "r3", "d3", 3, 0.5));
    let q = ProvenanceQuery { limit: Some(2), ..Default::default() };
    assert_eq!(s.query(&q).len(), 2);
    assert_eq!(s.query(&ProvenanceQuery::default()).len(), 3);
}

#[test]
fn audit_gaps_are_sorted_neighbours() {
    let mut s = ProvenanceStore::new(10);
    s.record(entry("a", "r", "d1", 5000, 0.5));
    s.record(entry("b", "r", "d2", 100, 0.5));
    s.record(entry("a", "q", "d3", 9000, 0.5));
    s.record(entry("a", "q", "d4", 9100, 0.5));
    let audit = s.audit();
    assert_eq!(audit.gaps, vec![(100, 5000), (5000, 9000)]);
    assert_eq!(audit.total_entries, 4);
    assert_eq!(audit.total_chains, 3);
    assert_eq!(audit.agents_seen, vec!["a".to_string(), "b".to_string()]);
    assert_eq!(audit.rooms_seen, vec!["r".to_string(), "q".to_string()]);
}

#[test]
fn audit_exactly_one_hour_is_no_gap() {
    let mut s = ProvenanceStore::new(10);
    s.record(entry("a", "r", "d1", 100, 0.5));
    s.record(entry("a", "r", "d2", 3700, 0.5));
    assert!(s.audit().is_continuous());
}

#[test]
fn mermaid_exact_output() {
    let mut c = ProvenanceChain::new("c");
    c.push(entry("a", "r", "say \"hi\"", 1, 0.5));
    c.push(entry("a", "r", "act", 2, 0.5));
    let m = ProvenanceExporter::to_mermaid(&c);
    assert_eq!(m, "graph TD\n    N0[\"say \\\"hi\\\"\"]\n    N1[\"act\"]\n    N0 --> N1\n");
    assert_eq!(ProvenanceExporter::to_mermaid(&ProvenanceChain::new("e")), "graph TD\n");
}

#[test]
fn csv_exact_output() {
    let mut c = ProvenanceChain::new("c");
    let mut e = ProvenanceEntry::new_at("ag", "go, now", 3, 77);
    e.with_reasoning("a,b");
    e.room_id = "rm".into();
    e.tile_id = Some("t9".into());
    c.push(e);
    let numbers = vec![NumberTexts {
        confidence: "0.9".into(),
        conservation_before: "1".into(),
        conservation_after: "2.5".into(),
    }];
    let csv = ProvenanceExporter::to_csv(&c, &numbers);
    assert_eq!(
        csv,
        "id,timestamp,agent_id,decision,reasoning,confidence,conservation_before,conservation_after,room_id,tile_id\n\
         pe-3,77,ag,go\\, now,a\\,b,0.9,1,2.5,rm,t9\n"
    );
}

#[test]
fn error_messages() {
    assert_eq!(ProvenanceError::ChainNotFound("x".into()).to_string(), "chain not found: x");
    assert_eq!(ProvenanceError::EntryTooLarge(999).to_string(), "entry too large: 999 bytes");
    assert_eq!(ProvenanceError::ParseError("bad".into()).to_string(), "parse error: bad");
    assert_eq!(ProvenanceError::StorageFull.to_string(), "storage full");
}

#[test]
fn root_alternatives_become_children() {
    let mut e = ProvenanceEntry::new_at("a", "A", 1, 1);
    e.with_alternatives(vec!["x".into()]);
    let mut c = ProvenanceChain::new("c1");
    c.push(e);
    let t = c.decision_tree();
    assert_eq!(t.root.decision, "A");
    assert_eq!(t.root.children.len(), 1);
    assert_eq!(t.root.children[0].decision, "x");
    assert_eq!(t.root.children[0].confidence, 0.0f64.to_bits());
    assert!(t.root.children[0].children.is_empty());
    assert_eq!(t.node_count(), 2);
    assert_eq!(t.depth(), 2);
}

#[test]
fn push_attaches_at_end_of_last_child_line() {
    let mut e0 = entry("a", "r", "A", 1, 0.5);
    e0.with_alternatives(vec!["x".into(), "y".into()]);
    let mut c = ProvenanceChain::new("c1");
    c.push(e0);
    let before = c.decision_tree().node_count();
    let mut e1 = entry("a", "r", "B", 2, 0.6);
    e1.with_alternatives(vec!["z".into()]);
    c.push(e1);
    let t = c.decision_tree();
    assert_eq!(t.node_count(), before + 2);
    assert_eq!(t.root.children.len(), 2);
    assert!(t.root.children[0].children.is_empty());
    let y = &t.root.children[1];
    assert_eq!(y.decision, "y");
    assert_eq!(y.children.len(), 1);
    assert_eq!(y.children[0].decision, "B");
    assert_eq!(y.children[0].confidence, 0.6f64.to_bits());
    assert_eq!(y.children[0].children[0].decision, "z");
}

#[test]
fn plain_chain_tree_is_a_line() {
    let mut c = ProvenanceChain::new("c");
    for i in 0..4u64 {
        c.push(entry("a", "r", &format!("d{}", i), i, 0.1 * (i as f64)));
    }
    let t = c.decision_tree();
    assert_eq!(t.node_count(), 4);
    assert_eq!(t.depth(), 4);
    let mut n = &t.root;
    for i in 0..4u64 {
        assert_eq!(n.decision, format!("d{}", i));
        assert_eq!(n.confidence, (0.1 * (i as f64)).to_bits());
        assert!(n.children.len() <= 1);
        if i < 3 {
            n = &n.children[0];
        }
    }
    assert!(n.children.is_empty());
}

#[test]
fn depth_at_most_node_count_and_find_missing() {
    let t = DecisionTree {
        root: node("r", 0.0, vec![node("a", 0.1, vec![node("b", 0.2, vec![])]), node("c", 0.3, vec![])]),
    };
    assert_eq!(t.depth(), 3);
    assert_eq!(t.node_count(), 4);
    assert!(t.find("c").is_some());
    assert!(t.find("zz").is_none());
    assert!(t.path_to("zz").is_empty());
}

#[test]
fn entry_ids_differ_with_sequence_numbers() {
    let e1 = ProvenanceEntry::new("a", "d", 1);
    let e2 = ProvenanceEntry::new("a", "d", 2);
    assert_eq!(e1.id, "pe-1");
    assert_eq!(e2.id, "pe-2");
    assert_ne!(e1.id, e2.id);
}

#[test]
fn csv_has_header_and_one_line_per_entry() {
    let mut c = ProvenanceChain::new("c");
    let mut numbers = Vec::new();
    for i in 0..3u64 {
        c.push(entry("a", "r", "go, on", 10 + i, 0.5));
        numbers.push(NumberTexts {
            confidence: "0.5".into(),
            conservation_before: "0".into(),
            conservation_after: "0".into(),
        });
    }
    let csv = ProvenanceExporter::to_csv(&c, &numbers);
    assert!(csv.ends_with('\n'));
    assert_eq!(csv.lines().count(), 4);
    assert!(csv.lines().nth(2).unwrap().starts_with("pe-11,11,"));
}

#[test]
fn mermaid_has_two_lines_per_entry() {
    let mut c = ProvenanceChain::new("c");
    for i in 0..3u64 {
        c.push(entry("a", "r", "step", i, 0.5));
    }
    let m = ProvenanceExporter::to_mermaid(&c);
    assert!(m.starts_with("graph TD\n"));
    assert!(m.ends_with('\n'));
    assert_eq!(m.lines().count(), 6);
    assert_eq!(m.lines().nth(5).unwrap(), "    N1 --> N2");
}

#[test]
fn store_query_and_history_draw_from_matching_entries() {
    let mut s = ProvenanceStore::new(100);
    s.record(entry("a", "room-1", "d1", 1, 0.5));
    s.record(entry("b", "room-1", "d2", 2, 0.5));
    s.record(entry("a", "room-1", "d3", 3, 0.5));
    s.record(entry("a", "room-2", "d4", 4, 0.5));
    let h = s.agent_history("a");
    let mut got: Vec<&str> = h.iter().map(|e| e.decision.as_str()).collect();
    got.sort();
    assert_eq!(got, vec!["d1", "d3", "d4"]);
    assert_eq!(s.room_history("room-1").len(), 3);
    let q = ProvenanceQuery { agent_id: Some("a".into()), ..Default::default() };
    assert_eq!(s.query(&q).len(), 3);
    let q2 = ProvenanceQuery { agent_id: Some("a".into()), limit: Some(2), ..Default::default() };
    let r = s.query(&q2);
    assert_eq!(r.len(), 2);
    assert!(r.iter().all(|e| e.agent_id == "a"));
}

#[test]
fn get_chain_and_record_use_first_slot_with_key() {
    let mut s = ProvenanceStore::new(10);
    let mut first = ProvenanceChain::new("first");
    first.push(entry("a", "r", "old", 1, 0.5));
    s.chains.push(ChainSlot { key: "a-r".into(), chain: first });
    s.chains.push(ChainSlot { key: "a-r".into(), chain: ProvenanceChain::new("second") });
    assert_eq!(s.get_chain("a-r").unwrap().chain_id, "first");
    s.record(entry("a", "r", "new", 2, 0.5));
    assert_eq!(s.chains.len(), 2);
    assert_eq!(s.chains[0].chain.entries.len(), 2);
    assert!(s.chains[1].chain.entries.is_empty());
    assert!(s.get_chain("b-r").is_none());
}
