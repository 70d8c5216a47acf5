//! Properties of the library as a whole, stated over the specifications
//! that the operations' contracts use, and proved.
use vstd::prelude::*;
use vstd::string::*;
use vstd::relations::total_ordering;
use crate::chain::{agent_is, alternative_leaf, entry_node, grow, room_is, time_within, tree_of};
use crate::seq_facts::lemma_filter_push;
use crate::entry::{entry_id, is_fresh_entry, ProvenanceEntry};
use crate::text::{contains_text, decimal, digit_char, replace_char};
use crate::export::{csv_header, csv_row, csv_rows, csv_text, mermaid_body, mermaid_label, mermaid_lines, NumberTexts};
use crate::float_bits::{f64_lt, is_nan_bits, magnitude, lemma_lt_asymmetric, lemma_lt_negatively_transitive};
use crate::query::{admits, admitted_by, is_match_all, query_entries, ProvenanceQuery};
use crate::store::{
    agent_of, room_of, confidence_of, texts, is_audit_of, of_agent, of_room, timestamp_of, u64_leq, ProvenanceAudit, all_entries, chain_for, chain_key, distinct_in_order, every_entry, gap_pairs, gather, has_key,
    keep_newest, keys_unique, query_fn, recorded, store_query, ChainSlot, first_key_index,
    is_first_key_index, lemma_first_key_index,
};
use crate::tree::{
    best_index, count, count_all, depth, find_in_all, find_model, lemma_count_all_bounds, lemma_max_depth_bounds,
    max_depth, path_in_all, path_model, spine_append, NodeModel,
};

verus! {

/// Among children whose confidences are not NaN, the child that
/// `best_child` picks has the highest confidence: no child compares above it,
/// and every child after it compares strictly below it (so it is the last of
/// several equal maxima).
pub proof fn law_best_child_is_highest(s: Seq<NodeModel>)
    requires
        s.len() > 0,
        forall|i: int| 0 <= i < s.len() ==> !is_nan_bits(#[trigger] s[i].confidence),
    ensures
        0 <= best_index(s) < s.len(),
        forall|i: int| 0 <= i < s.len() ==> !f64_lt(s[best_index(s)].confidence, #[trigger] s[i].confidence),
        forall|i: int| best_index(s) < i < s.len() ==> f64_lt(#[trigger] s[i].confidence, s[best_index(s)].confidence),
    decreases s.len(),
{
    if s.len() > 1 {
        let p = s.subrange(0, s.len() - 1);
        law_best_child_is_highest(p);
        let b = best_index(p);
        let last = s[s.len() - 1];
        assert(p[b] == s[b]);
        if f64_lt(last.confidence, s[b].confidence) {
            assert(best_index(s) == b);
            assert forall|i: int| 0 <= i < s.len() implies !f64_lt(s[b].confidence, #[trigger] s[i].confidence) by {
                if i < s.len() - 1 {
                    assert(p[i] == s[i]);
                } else {
                    lemma_lt_asymmetric(last.confidence, s[b].confidence);
                }
            }
            assert forall|i: int| b < i < s.len() implies f64_lt(#[trigger] s[i].confidence, s[b].confidence) by {
                if i < s.len() - 1 {
                    assert(p[i] == s[i]);
                }
            }
        } else {
            assert(best_index(s) == s.len() - 1);
            assert forall|i: int| 0 <= i < s.len() implies !f64_lt(last.confidence, #[trigger] s[i].confidence) by {
                if i < s.len() - 1 {
                    assert(p[i] == s[i]);
                    if f64_lt(last.confidence, s[i].confidence) {
                        lemma_lt_negatively_transitive(last.confidence, s[b].confidence, s[i].confidence);
                    }
                } else {
                    lemma_lt_asymmetric(last.confidence, last.confidence);
                }
            }
        }
    }
}

// ---------------------------------------------------------------------------
// Depth of the decision tree
// ---------------------------------------------------------------------------

/// The number of nodes on the last-child spine from `m` down.
pub open spec fn spine_len(m: NodeModel) -> nat
    decreases m,
{
    if m.children.len() == 0 {
        1
    } else {
        1 + spine_len(m.children[m.children.len() - 1])
    }
}

/// Every child but the last is a leaf, at every node of the spine.
pub open spec fn spine_shaped(m: NodeModel) -> bool
    decreases m,
{
    &&& forall|i: int| 0 <= i < m.children.len() - 1 ==> (#[trigger] m.children[i]).children.len() == 0
    &&& (m.children.len() > 0 ==> spine_shaped(m.children[m.children.len() - 1]))
}

/// How much deeper the tree grows when an entry is attached: one level for
/// its node, one more when it has alternatives.
pub open spec fn entry_weight(e: ProvenanceEntry) -> nat {
    if e.alternatives@.len() == 0 { 1 } else { 2 }
}

/// The depth of the tree built from the first `n` entries.
pub open spec fn grown_depth(entries: Seq<ProvenanceEntry>, n: nat) -> nat
    decreases n,
{
    if n <= 1 {
        entry_weight(entries[0])
    } else {
        grown_depth(entries, (n - 1) as nat) + entry_weight(entries[n - 1])
    }
}

proof fn lemma_max_depth_at_most(s: Seq<NodeModel>, k: nat)
    requires
        forall|i: int| 0 <= i < s.len() ==> depth(#[trigger] s[i]) <= k,
    ensures
        max_depth(s) <= k,
    decreases s.len(),
{
    if s.len() > 0 {
        let p = s.subrange(0, s.len() - 1);
        assert forall|i: int| 0 <= i < p.len() implies depth(#[trigger] p[i]) <= k by {
            assert(p[i] == s[i]);
        }
        lemma_max_depth_at_most(p, k);
    }
}

proof fn lemma_leaf_depth(m: NodeModel)
    requires
        m.children.len() == 0,
    ensures
        depth(m) == 1,
{
}

/// On a spine-shaped tree the depth is the spine length.
proof fn lemma_spine_depth(m: NodeModel)
    requires
        spine_shaped(m),
    ensures
        depth(m) == spine_len(m),
        spine_len(m) >= 1,
    decreases m,
{
    if m.children.len() > 0 {
        let s = m.children;
        let l = s.len() - 1;
        lemma_spine_depth(s[l]);
        let p = s.subrange(0, l);
        assert forall|i: int| 0 <= i < p.len() implies depth(#[trigger] p[i]) <= 1 by {
            assert(p[i] == s[i]);
            lemma_leaf_depth(s[i]);
        }
        lemma_max_depth_at_most(p, 1);
        assert(max_depth(s) == depth(s[l]));
    }
}

/// Attaching a spine-shaped tree at the end of a spine keeps the shape and
/// adds the lengths.
proof fn lemma_spine_append(m: NodeModel, c: NodeModel)
    requires
        spine_shaped(m),
        spine_shaped(c),
    ensures
        spine_shaped(spine_append(m, c)),
        spine_len(spine_append(m, c)) == spine_len(m) + spine_len(c),
    decreases m,
{
    let r = spine_append(m, c);
    if m.children.len() == 0 {
        assert(r.children == seq![c]);
    } else {
        let l = m.children.len() - 1;
        lemma_spine_append(m.children[l], c);
        assert(r.children.len() == m.children.len());
        assert forall|i: int| 0 <= i < r.children.len() - 1 implies (#[trigger] r.children[i]).children.len() == 0 by {
            assert(r.children[i] == m.children[i]);
        }
    }
}

proof fn lemma_entry_node_shape(e: ProvenanceEntry)
    ensures
        spine_shaped(entry_node(e)),
        spine_len(entry_node(e)) == entry_weight(e),
{
    let m = entry_node(e);
    assert forall|i: int| 0 <= i < m.children.len() implies (#[trigger] m.children[i]).children.len() == 0 by {
        assert(m.children[i] == alternative_leaf(e.alternatives@[i]));
    }
    if m.children.len() > 0 {
        let leaf = m.children[m.children.len() - 1];
        assert(leaf.children.len() == 0);
        assert(spine_shaped(leaf));
        assert(spine_len(leaf) == 1);
    }
}

proof fn lemma_grow_shape(entries: Seq<ProvenanceEntry>, n: nat)
    requires
        1 <= n <= entries.len(),
    ensures
        spine_shaped(grow(entries, n)),
        spine_len(grow(entries, n)) == grown_depth(entries, n),
    decreases n,
{
    if n <= 1 {
        lemma_entry_node_shape(entries[0]);
    } else {
        lemma_grow_shape(entries, (n - 1) as nat);
        lemma_entry_node_shape(entries[n - 1]);
        lemma_spine_append(grow(entries, (n - 1) as nat), entry_node(entries[n - 1]));
    }
}

/// The depth of a chain's decision tree: one level per entry plus one more
/// for each entry that has alternatives; an empty chain gives depth one.
pub proof fn law_decision_tree_depth(entries: Seq<ProvenanceEntry>)
    ensures
        depth(tree_of(entries)) == if entries.len() == 0 { 1 } else { grown_depth(entries, entries.len()) },
{
    if entries.len() > 0 {
        lemma_grow_shape(entries, entries.len());
        lemma_spine_depth(grow(entries, entries.len()));
    } else {
        lemma_leaf_depth(tree_of(entries));
    }
}

proof fn lemma_grown_depth_plain(entries: Seq<ProvenanceEntry>, n: nat)
    requires
        1 <= n <= entries.len(),
        forall|i: int| 0 <= i < entries.len() ==> (#[trigger] entries[i]).alternatives@.len() == 0,
    ensures
        grown_depth(entries, n) == n,
    decreases n,
{
    if n > 1 {
        lemma_grown_depth_plain(entries, (n - 1) as nat);
    }
}

/// A non-empty chain whose entries have no alternatives gives a decision
/// tree exactly as deep as the chain is long.
pub proof fn law_decision_tree_depth_bounded_by_entries(entries: Seq<ProvenanceEntry>)
    requires
        entries.len() > 0,
        forall|i: int| 0 <= i < entries.len() ==> (#[trigger] entries[i]).alternatives@.len() == 0,
    ensures
        depth(tree_of(entries)) == entries.len(),
{
    law_decision_tree_depth(entries);
    lemma_grown_depth_plain(entries, entries.len());
}

proof fn lemma_grow_root(entries: Seq<ProvenanceEntry>, n: nat)
    requires
        1 <= n <= entries.len(),
    ensures
        grow(entries, n).decision == entries[0].decision@,
        grow(entries, n).confidence == entries[0].confidence,
    decreases n,
{
    if n > 1 {
        lemma_grow_root(entries, (n - 1) as nat);
    }
}

/// The root of a non-empty chain's decision tree is its first entry.
pub proof fn law_decision_tree_root_is_first_entry(entries: Seq<ProvenanceEntry>)
    requires
        entries.len() > 0,
    ensures
        tree_of(entries).decision == entries[0].decision@,
        tree_of(entries).confidence == entries[0].confidence,
{
    lemma_grow_root(entries, entries.len());
}

// ---------------------------------------------------------------------------
// Growth of the decision tree, node count and spine
// ---------------------------------------------------------------------------

proof fn lemma_grow_prefix(entries: Seq<ProvenanceEntry>, e: ProvenanceEntry, n: nat)
    requires
        1 <= n <= entries.len(),
    ensures
        grow(entries.push(e), n) == grow(entries, n),
    decreases n,
{
    assert(entries.push(e)[0] == entries[0]);
    if n > 1 {
        lemma_grow_prefix(entries, e, (n - 1) as nat);
        assert(entries.push(e)[n - 1] == entries[n - 1]);
    }
}

proof fn lemma_count_spine_append(m: NodeModel, c: NodeModel)
    ensures
        count(spine_append(m, c)) == count(m) + count(c),
    decreases m,
{
    let r = spine_append(m, c);
    if m.children.len() == 0 {
        assert(r.children == seq![c]);
        assert(seq![c].subrange(0, 0) =~= Seq::<NodeModel>::empty());
        assert(count_all(Seq::<NodeModel>::empty()) == 0);
        assert(count_all(m.children) == 0);
        assert(count_all(seq![c]) == count(c));
        assert(count(m) == 1);
    } else {
        let l = m.children.len() - 1;
        lemma_count_spine_append(m.children[l], c);
        assert(r.children.subrange(0, l) =~= m.children.subrange(0, l));
        assert(r.children[l] == spine_append(m.children[l], c));
        assert(count_all(r.children) == count_all(m.children.subrange(0, l)) + count(spine_append(m.children[l], c)));
        assert(count_all(m.children) == count_all(m.children.subrange(0, l)) + count(m.children[l]));
    }
}

proof fn lemma_count_leaves(s: Seq<NodeModel>)
    requires
        forall|i: int| 0 <= i < s.len() ==> (#[trigger] s[i]).children.len() == 0,
    ensures
        count_all(s) == s.len(),
    decreases s.len(),
{
    if s.len() > 0 {
        let p = s.subrange(0, s.len() - 1);
        assert forall|i: int| 0 <= i < p.len() implies (#[trigger] p[i]).children.len() == 0 by {
            assert(p[i] == s[i]);
        }
        lemma_count_leaves(p);
        let last = s[s.len() - 1];
        assert(count_all(last.children) == 0);
        assert(count(last) == 1);
        assert(count_all(s) == count_all(p) + count(last));
    }
}

proof fn lemma_entry_node_count(e: ProvenanceEntry)
    ensures
        count(entry_node(e)) == 1 + e.alternatives@.len(),
{
    let m = entry_node(e);
    assert forall|i: int| 0 <= i < m.children.len() implies (#[trigger] m.children[i]).children.len() == 0 by {
        assert(m.children[i] == alternative_leaf(e.alternatives@[i]));
    }
    lemma_count_leaves(m.children);
}

/// Appending an entry to a non-empty chain attaches the entry's node (with
/// its alternatives as leaves) as the last child of the node reached from
/// the root by always taking the last child, and nothing else changes: the
/// node count grows by one plus the number of alternatives.
pub proof fn law_decision_tree_after_push(entries: Seq<ProvenanceEntry>, e: ProvenanceEntry)
    requires
        entries.len() > 0,
    ensures
        tree_of(entries.push(e)) == spine_append(tree_of(entries), entry_node(e)),
        count(tree_of(entries.push(e))) == count(tree_of(entries)) + 1 + e.alternatives@.len(),
{
    let n = entries.len();
    lemma_grow_prefix(entries, e, n);
    assert(entries.push(e)[n as int] == e);
    assert(grow(entries.push(e), n + 1) == spine_append(grow(entries.push(e), n), entry_node(e)));
    lemma_count_spine_append(tree_of(entries), entry_node(e));
    lemma_entry_node_count(e);
}

/// The decisions and confidences met from `m` down its last-child spine.
pub open spec fn spine_labels(m: NodeModel) -> Seq<(Seq<char>, u64)>
    decreases m,
{
    if m.children.len() == 0 {
        seq![(m.decision, m.confidence)]
    } else {
        seq![(m.decision, m.confidence)] + spine_labels(m.children[m.children.len() - 1])
    }
}

/// No node of the tree has more than one child.
pub open spec fn is_single_line(m: NodeModel) -> bool
    decreases m,
{
    &&& m.children.len() <= 1
    &&& (m.children.len() == 1 ==> is_single_line(m.children[0]))
}

/// The decision and confidence of each entry, in chain order.
pub open spec fn entry_labels(entries: Seq<ProvenanceEntry>) -> Seq<(Seq<char>, u64)> {
    entries.map_values(|e: ProvenanceEntry| (e.decision@, e.confidence))
}

proof fn lemma_single_line_append(m: NodeModel, c: NodeModel)
    requires
        is_single_line(m),
        is_single_line(c),
    ensures
        is_single_line(spine_append(m, c)),
        spine_labels(spine_append(m, c)) == spine_labels(m) + spine_labels(c),
    decreases m,
{
    let r = spine_append(m, c);
    if m.children.len() == 0 {
        assert(r.children == seq![c]);
        assert(spine_labels(r) == seq![(m.decision, m.confidence)] + spine_labels(c));
    } else {
        lemma_single_line_append(m.children[0], c);
        assert(r.children == seq![spine_append(m.children[0], c)]);
        assert(spine_labels(r) =~= spine_labels(m) + spine_labels(c));
    }
}

proof fn lemma_grow_single_line(entries: Seq<ProvenanceEntry>, n: nat)
    requires
        1 <= n <= entries.len(),
        forall|i: int| 0 <= i < entries.len() ==> (#[trigger] entries[i]).alternatives@.len() == 0,
    ensures
        is_single_line(grow(entries, n)),
        spine_labels(grow(entries, n)) == entry_labels(entries.take(n as int)),
        count(grow(entries, n)) == n,
    decreases n,
{
    let e = entries[n - 1];
    assert(entry_node(e).children =~= Seq::<NodeModel>::empty());
    assert(count_all(entry_node(e).children) == 0);
    if n == 1 {
        assert(entries.take(1) =~= seq![entries[0]]);
        assert(entry_labels(entries.take(1)) =~= seq![(entries[0].decision@, entries[0].confidence)]);
    } else {
        let m = grow(entries, (n - 1) as nat);
        lemma_grow_single_line(entries, (n - 1) as nat);
        lemma_single_line_append(m, entry_node(e));
        lemma_count_spine_append(m, entry_node(e));
        assert(entries.take(n as int) =~= entries.take(n - 1).push(e));
        assert(entry_labels(entries.take(n as int)) =~= entry_labels(entries.take(n - 1)).push(
            (e.decision@, e.confidence),
        ));
        assert(spine_labels(entry_node(e)) =~= seq![(e.decision@, e.confidence)]);
    }
}

/// A non-empty chain whose entries have no alternatives gives a tree that is
/// a single line: one node per entry, as many levels as entries, no node
/// with more than one child, and the nodes from the root down carry the
/// entries' decisions and confidences in chain order.
pub proof fn law_plain_chain_tree_is_a_line(entries: Seq<ProvenanceEntry>)
    requires
        entries.len() > 0,
        forall|i: int| 0 <= i < entries.len() ==> (#[trigger] entries[i]).alternatives@.len() == 0,
    ensures
        count(tree_of(entries)) == entries.len(),
        depth(tree_of(entries)) == entries.len(),
        is_single_line(tree_of(entries)),
        spine_labels(tree_of(entries)) == entry_labels(entries),
{
    lemma_grow_single_line(entries, entries.len());
    assert(entries.take(entries.len() as int) =~= entries);
    law_decision_tree_depth_bounded_by_entries(entries);
}

// ---------------------------------------------------------------------------
// Finding and paths
// ---------------------------------------------------------------------------

/// A path that `path_to` returns starts at the node searched from, each
/// node after the first is a child of the one before, the last node carries
/// the decision searched for, and it is the node that `find` returns; when
/// there is no path, `find` finds nothing.
pub proof fn law_path_and_find_agree(m: NodeModel, target: Seq<char>)
    ensures
        match path_model(m, target) {
            Some(p) => {
                &&& p.len() >= 1
                &&& p[0] == m
                &&& p[p.len() - 1].decision == target
                &&& forall|i: int| 0 <= i < p.len() - 1 ==> (#[trigger] p[i]).children.contains(p[i + 1])
                &&& find_model(m, target) == Some(p[p.len() - 1])
            },
            None => find_model(m, target) is None,
        },
    decreases m,
{
    if m.decision != target {
        law_path_and_find_agree_all(m.children, target);
        match path_in_all(m.children, target) {
            Some(q) => {
                let p = seq![m] + q;
                assert forall|i: int| 0 <= i < p.len() - 1 implies (#[trigger] p[i]).children.contains(p[i + 1]) by {
                    if i == 0 {
                        let j = choose|j: int| 0 <= j < m.children.len() && m.children[j] == q[0];
                        assert(m.children[j] == p[1]);
                    } else {
                        assert(p[i] == q[i - 1]);
                        assert(p[i + 1] == q[i]);
                    }
                }
                assert(p[p.len() - 1] == q[q.len() - 1]);
            },
            None => {},
        }
    }
}

/// The list form of `law_path_and_find_agree`: a path among the trees of
/// `s` starts at one of them.
pub proof fn law_path_and_find_agree_all(s: Seq<NodeModel>, target: Seq<char>)
    ensures
        match path_in_all(s, target) {
            Some(p) => {
                &&& p.len() >= 1
                &&& exists|j: int| 0 <= j < s.len() && s[j] == p[0]
                &&& p[p.len() - 1].decision == target
                &&& forall|i: int| 0 <= i < p.len() - 1 ==> (#[trigger] p[i]).children.contains(p[i + 1])
                &&& find_in_all(s, target) == Some(p[p.len() - 1])
            },
            None => find_in_all(s, target) is None,
        },
    decreases s,
{
    if s.len() > 0 {
        let pre = s.subrange(0, s.len() - 1);
        let last = s[s.len() - 1];
        law_path_and_find_agree_all(pre, target);
        law_path_and_find_agree(last, target);
        match path_in_all(pre, target) {
            Some(p) => {
                let j = choose|j: int| 0 <= j < pre.len() && pre[j] == p[0];
                assert(s[j] == p[0]);
            },
            None => {
                match path_model(last, target) {
                    Some(p) => {
                        assert(s[s.len() - 1] == p[0]);
                    },
                    None => {},
                }
            },
        }
    }
}


// ---------------------------------------------------------------------------
// Queries
// ---------------------------------------------------------------------------

proof fn lemma_filter_all_true(es: Seq<ProvenanceEntry>, p: spec_fn(ProvenanceEntry) -> bool)
    requires
        forall|e: ProvenanceEntry| #[trigger] p(e),
    ensures
        es.filter(p) == es,
    decreases es.len(),
{
    reveal(Seq::filter);
    if es.len() > 0 {
        lemma_filter_all_true(es.drop_last(), p);
        assert(es.drop_last().push(es.last()) =~= es);
    }
}

/// The query with every field `None` (what `Default` gives) returns every
/// entry of a chain, in order.
pub proof fn law_match_all_query_returns_every_entry(q: ProvenanceQuery, es: Seq<ProvenanceEntry>)
    requires
        is_match_all(q),
    ensures
        query_entries(q, es) == es,
{
    lemma_filter_all_true(es, admitted_by(q));
}

proof fn lemma_gather_same(
    slots: Seq<ChainSlot>,
    f: spec_fn(Seq<ProvenanceEntry>) -> Seq<ProvenanceEntry>,
    g: spec_fn(Seq<ProvenanceEntry>) -> Seq<ProvenanceEntry>,
)
    requires
        forall|es: Seq<ProvenanceEntry>| #[trigger] f(es) == g(es),
    ensures
        gather(slots, f) == gather(slots, g),
    decreases slots.len(),
{
    if slots.len() > 0 {
        lemma_gather_same(slots.drop_last(), f, g);
    }
}

/// On a store, the match-all query returns every entry of every chain.
pub proof fn law_match_all_store_query_returns_every_entry(q: ProvenanceQuery, slots: Seq<ChainSlot>)
    requires
        is_match_all(q),
    ensures
        store_query(slots, q) == all_entries(slots),
{
    assert forall|es: Seq<ProvenanceEntry>| #[trigger] query_fn(q)(es) == every_entry()(es) by {
        law_match_all_query_returns_every_entry(q, es);
    }
    lemma_gather_same(slots, query_fn(q), every_entry());
}

/// Every entry a query returns passes all of the query's filters and comes
/// from the chain, and there are no more of them than the limit.
pub proof fn law_query_returns_only_admitted_entries(q: ProvenanceQuery, es: Seq<ProvenanceEntry>)
    ensures
        forall|i: int| 0 <= i < query_entries(q, es).len() ==> {
            &&& admits(q, #[trigger] query_entries(q, es)[i])
            &&& es.contains(query_entries(q, es)[i])
        },
        q.limit matches Some(l) ==> query_entries(q, es).len() <= l,
{
    broadcast use vstd::seq_lib::group_filter_ensures;
    let f = es.filter(admitted_by(q));
    let r = query_entries(q, es);
    assert forall|i: int| 0 <= i < r.len() implies {
        &&& admits(q, #[trigger] r[i])
        &&& es.contains(r[i])
    } by {
        assert(r[i] == f[i]);
        es.lemma_filter_pred(admitted_by(q), i);
        assert(f.contains(f[i]));
        es.lemma_filter_contains_rev(admitted_by(q), f[i]);
    }
}


/// Every entry that `by_agent`, `by_room` or `by_time_range` returns
/// satisfies the filter's condition and comes from the chain, and every
/// entry of the chain that satisfies it is returned.
pub proof fn law_chain_filters_keep_exactly_matching(es: Seq<ProvenanceEntry>, p: spec_fn(ProvenanceEntry) -> bool)
    ensures
        forall|i: int| 0 <= i < es.filter(p).len() ==> p(#[trigger] es.filter(p)[i]) && es.contains(es.filter(p)[i]),
        forall|i: int| 0 <= i < es.len() && p(#[trigger] es[i]) ==> es.filter(p).contains(es[i]),
{
    broadcast use vstd::seq_lib::group_filter_ensures;
    assert forall|i: int| 0 <= i < es.filter(p).len() implies p(#[trigger] es.filter(p)[i]) && es.contains(es.filter(p)[i]) by {
        es.lemma_filter_pred(p, i);
        assert(es.filter(p).contains(es.filter(p)[i]));
        es.lemma_filter_contains_rev(p, es.filter(p)[i]);
    }
    assert forall|i: int| 0 <= i < es.len() && p(#[trigger] es[i]) implies es.filter(p).contains(es[i]) by {
        es.lemma_filter_contains(p, i);
    }
}

// ---------------------------------------------------------------------------
// Store
// ---------------------------------------------------------------------------

/// Keeping the newest entries leaves at most `max` of them, keeps their
/// order, and (for `max > 0`) keeps the newest one.
pub proof fn law_eviction_keeps_newest(s: Seq<ProvenanceEntry>, max: nat)
    ensures
        keep_newest(s, max).len() == if s.len() > max { max } else { s.len() },
        forall|i: int| 0 <= i < keep_newest(s, max).len() ==>
            #[trigger] keep_newest(s, max)[i] == s[s.len() - keep_newest(s, max).len() + i],
        max > 0 && s.len() > 0 ==> keep_newest(s, max).last() == s.last(),
{
}

/// After recording an entry, the chain filed under the entry's key holds at
/// most `max` entries and, when `max > 0`, ends with the entry; the chain
/// under every other key is unchanged; and unique keys stay unique.
pub proof fn law_record_then_get_chain(
    old: Seq<ChainSlot>,
    new: Seq<ChainSlot>,
    entry: ProvenanceEntry,
    max: nat,
)
    requires
        recorded(old, new, entry, max),
    ensures
        keys_unique(old) ==> keys_unique(new),
        chain_for(new, chain_key(entry.agent_id@, entry.room_id@)) matches Some(c) && c.entries@.len() <= max
            && (max > 0 ==> c.entries@.len() > 0 && c.entries@.last() == entry),
        forall|k: Seq<char>| k != chain_key(entry.agent_id@, entry.room_id@) ==> #[trigger] chain_for(new, k)
            == chain_for(old, k),
{
    let key = chain_key(entry.agent_id@, entry.room_id@);
    lemma_first_key_index(old, key);
    lemma_first_key_index(new, key);
    let n = old.len() as int;
    // every old slot keeps its key
    assert forall|i: int| 0 <= i < n implies #[trigger] new[i].key@ == old[i].key@ by {
        if has_key(old, key) && i == first_key_index(old, key) {
        } else {
            assert(new[i] == old[i]);
        }
    }
    if has_key(old, key) {
        let f = first_key_index(old, key);
        assert(is_first_key_index(new, key, f));
        assert(first_key_index(new, key) == f);
    } else {
        assert(is_first_key_index(new, key, n));
        assert(first_key_index(new, key) == n);
    }
    assert forall|k: Seq<char>| k != key implies #[trigger] chain_for(new, k) == chain_for(old, k) by {
        lemma_first_key_index(old, k);
        lemma_first_key_index(new, k);
        if has_key(old, k) {
            let f = first_key_index(old, k);
            assert(new[f].key@ == k);
            assert(is_first_key_index(new, k, f));
            assert(new[f] == old[f]);
        } else if has_key(new, k) {
            let b = first_key_index(new, k);
            if b < n {
                assert(old[b].key@ == k);
            }
        }
    }
    if keys_unique(old) {
        assert forall|a: int, b: int| 0 <= a < new.len() && 0 <= b < new.len() && a != b implies new[a].key@
            != new[b].key@ by {
            if a < n && b < n {
            } else if a < n {
                assert(old[a].key@ == new[a].key@);
            } else if b < n {
                assert(old[b].key@ == new[b].key@);
            }
        }
    }
}

// ---------------------------------------------------------------------------
// Audit
// ---------------------------------------------------------------------------

/// The distinct agents (or rooms) that an audit lists repeat none, and are
/// exactly the ones that occur.
pub proof fn law_audit_lists_each_once(s: Seq<Seq<char>>)
    ensures
        distinct_in_order(s).no_duplicates(),
        forall|x: Seq<char>|
            #![trigger distinct_in_order(s).contains(x)]
            #![trigger s.contains(x)]
            distinct_in_order(s).contains(x) <==> s.contains(x),
    decreases s.len(),
{
    if s.len() > 0 {
        let p = s.drop_last();
        law_audit_lists_each_once(p);
        let d = distinct_in_order(p);
        let l = s.last();
        let ds = distinct_in_order(s);
        assert(s.drop_last() == p);
        assert forall|x: Seq<char>| ds.contains(x) implies s.contains(x) by {
            let k = choose|k: int| 0 <= k < ds.len() && ds[k] == x;
            if k < d.len() && ds[k] == d[k] {
                assert(d.contains(x));
                let m = choose|m: int| 0 <= m < p.len() && p[m] == x;
                assert(s[m] == x);
            } else {
                assert(x == l);
                assert(s[s.len() - 1] == x);
            }
        }
        assert forall|x: Seq<char>| s.contains(x) implies ds.contains(x) by {
            let k = choose|k: int| 0 <= k < s.len() && s[k] == x;
            if k < s.len() - 1 {
                assert(p[k] == x);
                assert(d.contains(x));
                let m = choose|m: int| 0 <= m < d.len() && d[m] == x;
                if !d.contains(l) {
                    assert(ds[m] == x);
                }
            } else {
                if !d.contains(l) {
                    assert(ds[d.len() as int] == l);
                }
            }
        }
    }
}

/// Each gap is a pair of neighbouring timestamps more than an hour apart, and
/// there is no gap exactly when all neighbours are within an hour of each
/// other (so `is_continuous` holds exactly then).
pub proof fn law_gaps_are_neighbours_over_an_hour(t: Seq<u64>)
    ensures
        forall|g: int| 0 <= g < gap_pairs(t).len() ==> {
            &&& (#[trigger] gap_pairs(t)[g]).1 - gap_pairs(t)[g].0 > 3600
            &&& exists|k: int| 0 <= k < t.len() - 1 && #[trigger] t[k] == gap_pairs(t)[g].0 && t[k + 1] == gap_pairs(t)[g].1
        },
        gap_pairs(t).len() == 0 <==> forall|k: int| 0 <= k < t.len() - 1 ==> #[trigger] t[k + 1] - t[k] <= 3600,
    decreases t.len(),
{
    if t.len() >= 2 {
        let p = t.drop_last();
        law_gaps_are_neighbours_over_an_hour(p);
        let gp = gap_pairs(p);
        let n = t.len();
        assert forall|g: int| 0 <= g < gap_pairs(t).len() implies {
            &&& (#[trigger] gap_pairs(t)[g]).1 - gap_pairs(t)[g].0 > 3600
            &&& exists|k: int| 0 <= k < t.len() - 1 && #[trigger] t[k] == gap_pairs(t)[g].0 && t[k + 1] == gap_pairs(t)[g].1
        } by {
            if g < gp.len() {
                assert(gap_pairs(t)[g] == gp[g]);
                let k = choose|k: int| 0 <= k < p.len() - 1 && #[trigger] p[k] == gp[g].0 && p[k + 1] == gp[g].1;
                assert(t[k] == p[k] && t[k + 1] == p[k + 1]);
            } else {
                assert(gap_pairs(t)[g] == (t[n - 2], t[n - 1]));
            }
        }
        if gap_pairs(t).len() == 0 {
            assert forall|k: int| 0 <= k < t.len() - 1 implies #[trigger] t[k + 1] - t[k] <= 3600 by {
                if k < n - 2 {
                    assert(p[k] == t[k] && p[k + 1] == t[k + 1]);
                }
            }
        } else {
            if gp.len() > 0 {
                let g0 = gp[0];
                let k = choose|k: int| 0 <= k < p.len() - 1 && #[trigger] p[k] == g0.0 && p[k + 1] == g0.1;
                assert(t[k] == p[k] && t[k + 1] == p[k + 1]);
                assert(t[k + 1] - t[k] > 3600);
            } else {
                assert(t[n - 1] - t[n - 2] > 3600);
            }
        }
        if forall|k: int| 0 <= k < t.len() - 1 ==> #[trigger] t[k + 1] - t[k] <= 3600 {
            assert forall|k: int| 0 <= k < p.len() - 1 implies #[trigger] p[k + 1] - p[k] <= 3600 by {
                assert(p[k] == t[k] && p[k + 1] == t[k + 1]);
            }
            let k0 = n - 2;
            assert(t[k0 + 1] - t[k0] <= 3600);
        }
    }
}


/// Over timestamps in ascending order, each gap opens before it closes, and
/// the gaps come out in order without overlapping: every gap closes no later
/// than the next one opens.
pub proof fn law_gaps_sorted_and_disjoint(t: Seq<u64>)
    requires
        forall|i: int, j: int| 0 <= i <= j < t.len() ==> t[i] <= t[j],
    ensures
        forall|g: int| 0 <= g < gap_pairs(t).len() ==> (#[trigger] gap_pairs(t)[g]).0 < gap_pairs(t)[g].1,
        forall|g: int, h: int| 0 <= g < h < gap_pairs(t).len() ==> (#[trigger] gap_pairs(t)[g]).1 <= (#[trigger] gap_pairs(t)[h]).0,
    decreases t.len(),
{
    law_gaps_are_neighbours_over_an_hour(t);
    if t.len() >= 2 {
        let p = t.drop_last();
        let n = t.len();
        assert forall|i: int, j: int| 0 <= i <= j < p.len() implies p[i] <= p[j] by {
            assert(p[i] == t[i] && p[j] == t[j]);
        }
        law_gaps_sorted_and_disjoint(p);
        law_gaps_are_neighbours_over_an_hour(p);
        let gp = gap_pairs(p);
        assert forall|g: int, h: int| 0 <= g < h < gap_pairs(t).len() implies (#[trigger] gap_pairs(t)[g]).1 <= (#[trigger] gap_pairs(t)[h]).0 by {
            assert(gap_pairs(t)[g] == gp[g]);
            if h < gp.len() {
                assert(gap_pairs(t)[h] == gp[h]);
            } else {
                assert(gap_pairs(t)[h] == (t[n - 2], t[n - 1]));
                let k = choose|k: int| 0 <= k < p.len() - 1 && #[trigger] p[k] == gp[g].0 && p[k + 1] == gp[g].1;
                assert(p[k + 1] == t[k + 1]);
                assert(t[k + 1] <= t[n - 2]);
            }
        }
    }
}

/// The gaps that an audit reports are in order and do not overlap.
pub proof fn law_audit_gaps_sorted_and_disjoint(a: ProvenanceAudit, slots: Seq<ChainSlot>)
    requires
        is_audit_of(a, slots),
    ensures
        forall|g: int| 0 <= g < a.gaps@.len() ==> (#[trigger] a.gaps@[g]).0 < a.gaps@[g].1,
        forall|g: int, h: int| 0 <= g < h < a.gaps@.len() ==> (#[trigger] a.gaps@[g]).1 <= (#[trigger] a.gaps@[h]).0,
{
    let raw = all_entries(slots).map_values(timestamp_of());
    assert(total_ordering(u64_leq()));
    raw.lemma_sort_by_ensures(u64_leq());
    let t = raw.sort_by(u64_leq());
    assert forall|i: int, j: int| 0 <= i <= j < t.len() implies t[i] <= t[j] by {
        if i < j {
            assert(u64_leq()(t[i], t[j]));
        }
    }
    law_gaps_sorted_and_disjoint(t);
}

// ---------------------------------------------------------------------------
// Paths, depth and node count
// ---------------------------------------------------------------------------

/// `p` runs downward from `m`: it starts at `m` and each node after the
/// first is a child of the one before.
pub open spec fn is_downward_path(m: NodeModel, p: Seq<NodeModel>) -> bool {
    &&& p.len() >= 1
    &&& p[0] == m
    &&& forall|i: int| 0 <= i < p.len() - 1 ==> (#[trigger] p[i]).children.contains(p[i + 1])
}

proof fn lemma_path_tail(m: NodeModel, p: Seq<NodeModel>)
    requires
        is_downward_path(m, p),
        p.len() >= 2,
    ensures
        m.children.contains(p[1]),
        is_downward_path(p[1], p.skip(1)),
{
    let q = p.skip(1);
    assert(p[0].children.contains(p[1]));
    assert forall|i: int| 0 <= i < q.len() - 1 implies (#[trigger] q[i]).children.contains(q[i + 1]) by {
        assert(q[i] == p[i + 1]);
        assert(q[i + 1] == p[(i + 1) + 1]);
        assert(p[i + 1].children.contains(p[(i + 1) + 1]));
    }
}

proof fn lemma_path_no_longer_than_depth(m: NodeModel, p: Seq<NodeModel>)
    requires
        is_downward_path(m, p),
    ensures
        p.len() <= depth(m),
    decreases p.len(),
{
    if p.len() >= 2 {
        lemma_path_tail(m, p);
        lemma_path_no_longer_than_depth(p[1], p.skip(1));
        lemma_max_depth_bounds(m.children);
        let j = choose|j: int| 0 <= j < m.children.len() && m.children[j] == p[1];
        assert(depth(m.children[j]) <= max_depth(m.children));
    }
}

proof fn lemma_max_depth_attained(s: Seq<NodeModel>)
    requires
        s.len() > 0,
    ensures
        exists|i: int| 0 <= i < s.len() && depth(#[trigger] s[i]) == max_depth(s),
    decreases s.len(),
{
    let p = s.subrange(0, s.len() - 1);
    if p.len() > 0 && max_depth(p) >= depth(s[s.len() - 1]) {
        lemma_max_depth_attained(p);
        let i = choose|i: int| 0 <= i < p.len() && depth(#[trigger] p[i]) == max_depth(p);
        assert(s[i] == p[i]);
    } else {
        if p.len() == 0 {
            assert(max_depth(p) == 0);
        }
        assert(depth(s[s.len() - 1]) == max_depth(s));
    }
}

/// A downward path from `m` to a leaf with as many nodes as `m` has levels.
pub proof fn longest_path(m: NodeModel) -> (p: Seq<NodeModel>)
    ensures
        is_downward_path(m, p),
        p[p.len() - 1].children.len() == 0,
        p.len() == depth(m),
    decreases m,
{
    if m.children.len() == 0 {
        seq![m]
    } else {
        lemma_max_depth_attained(m.children);
        let i = choose|i: int| 0 <= i < m.children.len() && depth(#[trigger] m.children[i]) == max_depth(m.children);
        let q = longest_path(m.children[i]);
        let p = seq![m] + q;
        assert forall|k: int| 0 <= k < p.len() - 1 implies (#[trigger] p[k]).children.contains(p[k + 1]) by {
            if k == 0 {
                assert(p[1] == m.children[i]);
            } else {
                assert(p[k] == q[k - 1]);
                assert(p[k + 1] == q[(k - 1) + 1]);
            }
        }
        assert(p[p.len() - 1] == q[q.len() - 1]);
        p
    }
}

proof fn lemma_depth_le_count(m: NodeModel)
    ensures
        1 <= depth(m) <= count(m),
    decreases m,
{
    lemma_max_depth_le_count_all(m.children);
}

proof fn lemma_max_depth_le_count_all(s: Seq<NodeModel>)
    ensures
        max_depth(s) <= count_all(s),
    decreases s,
{
    if s.len() > 0 {
        lemma_max_depth_le_count_all(s.subrange(0, s.len() - 1));
        lemma_depth_le_count(s[s.len() - 1]);
    }
}

/// The depth of a tree is the number of nodes on its longest downward path
/// from the root (every such path is at most that long, and one reaching a
/// leaf is exactly that long), and it lies between one and the node count.
pub proof fn law_depth_is_longest_path(m: NodeModel)
    ensures
        forall|p: Seq<NodeModel>| is_downward_path(m, p) ==> p.len() <= depth(m),
        exists|p: Seq<NodeModel>| is_downward_path(m, p) && p[p.len() - 1].children.len() == 0 && p.len() == depth(m),
        1 <= depth(m) <= count(m),
{
    assert forall|p: Seq<NodeModel>| is_downward_path(m, p) implies p.len() <= depth(m) by {
        lemma_path_no_longer_than_depth(m, p);
    }
    let p = longest_path(m);
    lemma_depth_le_count(m);
}

proof fn lemma_find_in_all_some(s: Seq<NodeModel>, target: Seq<char>, j: int)
    requires
        0 <= j < s.len(),
        find_model(s[j], target) is Some,
    ensures
        find_in_all(s, target) is Some,
    decreases s.len(),
{
    let p = s.subrange(0, s.len() - 1);
    if j < s.len() - 1 {
        assert(p[j] == s[j]);
        lemma_find_in_all_some(p, target, j);
    }
}

proof fn lemma_found_along_path(m: NodeModel, p: Seq<NodeModel>, target: Seq<char>)
    requires
        is_downward_path(m, p),
        p[p.len() - 1].decision == target,
    ensures
        find_model(m, target) is Some,
    decreases p.len(),
{
    if m.decision != target {
        assert(p.len() >= 2);
        lemma_path_tail(m, p);
        assert(p.skip(1)[p.skip(1).len() - 1] == p[p.len() - 1]);
        lemma_found_along_path(p[1], p.skip(1), target);
        let j = choose|j: int| 0 <= j < m.children.len() && m.children[j] == p[1];
        lemma_find_in_all_some(m.children, target, j);
    }
}

/// `find` succeeds exactly when some node of the tree (the root or a node
/// below it) carries the decision.
pub proof fn law_find_succeeds_iff_some_node_carries_it(m: NodeModel, target: Seq<char>)
    ensures
        find_model(m, target) is Some <==> exists|p: Seq<NodeModel>|
            is_downward_path(m, p) && p[p.len() - 1].decision == target,
{
    law_path_and_find_agree(m, target);
    if find_model(m, target) is Some {
        let p = path_model(m, target)->0;
        assert(is_downward_path(m, p));
    }
    if exists|p: Seq<NodeModel>| is_downward_path(m, p) && p[p.len() - 1].decision == target {
        let p = choose|p: Seq<NodeModel>| is_downward_path(m, p) && p[p.len() - 1].decision == target;
        lemma_found_along_path(m, p, target);
    }
}


// ---------------------------------------------------------------------------
// Entry identifiers
// ---------------------------------------------------------------------------

proof fn lemma_decimal_nonempty(n: nat)
    ensures
        decimal(n).len() >= 1,
        n >= 10 ==> decimal(n).len() >= 2,
    decreases n,
{
    if n >= 10 {
        lemma_decimal_nonempty(n / 10);
    }
}

proof fn lemma_decimal_injective(a: nat, b: nat)
    requires
        decimal(a) == decimal(b),
    ensures
        a == b,
    decreases a,
{
    lemma_decimal_nonempty(a);
    lemma_decimal_nonempty(b);
    if a < 10 && b < 10 {
        assert(decimal(a)[0] == digit_char(a));
        assert(decimal(b)[0] == digit_char(b));
    } else if a >= 10 && b >= 10 {
        let da = decimal(a);
        let db = decimal(b);
        assert(da.last() == digit_char(a % 10));
        assert(db.last() == digit_char(b % 10));
        assert(da.drop_last() =~= decimal(a / 10));
        assert(db.drop_last() =~= decimal(b / 10));
        lemma_decimal_injective(a / 10, b / 10);
        assert(a % 10 == b % 10);
    } else {
        assert(decimal(a).len() != decimal(b).len());
    }
}

/// Entries created with different sequence numbers get different
/// identifiers (so a counter that never repeats gives fresh identifiers).
pub proof fn law_entry_ids_distinct(
    e1: ProvenanceEntry,
    agent1: Seq<char>,
    decision1: Seq<char>,
    seq1: u64,
    e2: ProvenanceEntry,
    agent2: Seq<char>,
    decision2: Seq<char>,
    seq2: u64,
)
    requires
        is_fresh_entry(e1, agent1, decision1, seq1),
        is_fresh_entry(e2, agent2, decision2, seq2),
        seq1 != seq2,
    ensures
        e1.id@ != e2.id@,
{
    if e1.id@ == e2.id@ {
        assert(entry_id(seq1).skip(3) =~= decimal(seq1 as nat));
        assert(entry_id(seq2).skip(3) =~= decimal(seq2 as nat));
        lemma_decimal_injective(seq1 as nat, seq2 as nat);
    }
}


// ---------------------------------------------------------------------------
// Line layout of the exports
// ---------------------------------------------------------------------------

/// How many times `c` occurs in `s`.
pub open spec fn count_char(s: Seq<char>, c: char) -> nat
    decreases s.len(),
{
    if s.len() == 0 {
        0
    } else {
        count_char(s.drop_last(), c) + (if s.last() == c { 1nat } else { 0nat })
    }
}

proof fn lemma_count_add(a: Seq<char>, b: Seq<char>, c: char)
    ensures
        count_char(a + b, c) == count_char(a, c) + count_char(b, c),
    decreases b.len(),
{
    if b.len() == 0 {
        assert(a + b =~= a);
    } else {
        assert((a + b).drop_last() =~= a + b.drop_last());
        lemma_count_add(a, b.drop_last(), c);
    }
}

proof fn lemma_count_absent(s: Seq<char>, c: char)
    requires
        !s.contains(c),
    ensures
        count_char(s, c) == 0,
    decreases s.len(),
{
    if s.len() > 0 {
        assert(s.last() == s[s.len() - 1]);
        assert forall|i: int| 0 <= i < s.drop_last().len() implies s.drop_last()[i] != c by {
            assert(s.drop_last()[i] == s[i]);
        }
        lemma_count_absent(s.drop_last(), c);
    }
}

proof fn lemma_count_line(s: Seq<char>, c: char)
    requires
        s.len() > 0,
        s.last() == c,
        !s.drop_last().contains(c),
    ensures
        count_char(s, c) == 1,
{
    lemma_count_absent(s.drop_last(), c);
}

proof fn lemma_decimal_no_newline(n: nat)
    ensures
        !decimal(n).contains('\n'),
    decreases n,
{
    if n >= 10 {
        lemma_decimal_no_newline(n / 10);
        assert forall|i: int| 0 <= i < decimal(n).len() implies decimal(n)[i] != '\n' by {
            if i < decimal(n / 10).len() {
                assert(decimal(n)[i] == decimal(n / 10)[i]);
            }
        }
    }
}

proof fn lemma_replace_no_newline(s: Seq<char>, c: char, rep: Seq<char>)
    requires
        !s.contains('\n'),
        !rep.contains('\n'),
    ensures
        !replace_char(s, c, rep).contains('\n'),
    decreases s.len(),
{
    if s.len() > 0 {
        assert forall|i: int| 0 <= i < s.drop_last().len() implies s.drop_last()[i] != '\n' by {
            assert(s.drop_last()[i] == s[i]);
        }
        lemma_replace_no_newline(s.drop_last(), c, rep);
        let head = replace_char(s.drop_last(), c, rep);
        let tail = if s.last() == c { rep } else { seq![s.last()] };
        assert(s.last() == s[s.len() - 1]);
        assert forall|i: int| 0 <= i < (head + tail).len() implies (head + tail)[i] != '\n' by {
            if i >= head.len() {
                assert((head + tail)[i] == tail[i - head.len()]);
            }
        }
    }
}

proof fn lemma_concat_no_newline(a: Seq<char>, b: Seq<char>)
    requires
        !a.contains('\n'),
        !b.contains('\n'),
    ensures
        !(a + b).contains('\n'),
{
    assert forall|i: int| 0 <= i < (a + b).len() implies (a + b)[i] != '\n' by {
        if i >= a.len() {
            assert((a + b)[i] == b[i - a.len()]);
        }
    }
}

/// No line break in any text field of an entry or in its number texts.
pub open spec fn csv_row_is_one_line(e: ProvenanceEntry, n: NumberTexts) -> bool {
    &&& !e.id@.contains('\n')
    &&& !e.agent_id@.contains('\n')
    &&& !e.decision@.contains('\n')
    &&& !e.reasoning@.contains('\n')
    &&& !e.room_id@.contains('\n')
    &&& (e.tile_id matches Some(t) ==> !t@.contains('\n'))
    &&& !n.confidence@.contains('\n')
    &&& !n.conservation_before@.contains('\n')
    &&& !n.conservation_after@.contains('\n')
}

proof fn lemma_csv_row_one_line(e: ProvenanceEntry, n: NumberTexts)
    requires
        csv_row_is_one_line(e, n),
    ensures
        count_char(csv_row(e, n), '\n') == 1,
        csv_row(e, n).last() == '\n',
{
    reveal_strlit(",");
    reveal_strlit("\\,");
    reveal_strlit("\n");
    let comma = ","@;
    assert(!comma.contains('\n'));
    assert(!"\\,"@.contains('\n'));
    lemma_decimal_no_newline(e.timestamp as nat);
    lemma_replace_no_newline(e.decision@, ',', "\\,"@);
    lemma_replace_no_newline(e.reasoning@, ',', "\\,"@);
    let tile = match e.tile_id {
        Some(t) => t@,
        None => Seq::<char>::empty(),
    };
    assert(!tile.contains('\n'));
    let body = e.id@ + comma + decimal(e.timestamp as nat) + comma + e.agent_id@ + comma + csv_text(e.decision@)
        + comma + csv_text(e.reasoning@) + comma + n.confidence@ + comma + n.conservation_before@
        + comma + n.conservation_after@ + comma + e.room_id@ + comma + tile;
    lemma_concat_no_newline(e.id@, comma);
    lemma_concat_no_newline(e.id@ + comma, decimal(e.timestamp as nat));
    lemma_concat_no_newline(e.id@ + comma + decimal(e.timestamp as nat), comma);
    lemma_concat_no_newline(e.id@ + comma + decimal(e.timestamp as nat) + comma, e.agent_id@);
    lemma_concat_no_newline(e.id@ + comma + decimal(e.timestamp as nat) + comma + e.agent_id@, comma);
    let p1 = e.id@ + comma + decimal(e.timestamp as nat) + comma + e.agent_id@ + comma;
    lemma_concat_no_newline(p1, csv_text(e.decision@));
    lemma_concat_no_newline(p1 + csv_text(e.decision@), comma);
    let p2 = p1 + csv_text(e.decision@) + comma;
    lemma_concat_no_newline(p2, csv_text(e.reasoning@));
    lemma_concat_no_newline(p2 + csv_text(e.reasoning@), comma);
    let p3 = p2 + csv_text(e.reasoning@) + comma;
    lemma_concat_no_newline(p3, n.confidence@);
    lemma_concat_no_newline(p3 + n.confidence@, comma);
    let p4 = p3 + n.confidence@ + comma;
    lemma_concat_no_newline(p4, n.conservation_before@);
    lemma_concat_no_newline(p4 + n.conservation_before@, comma);
    let p5 = p4 + n.conservation_before@ + comma;
    lemma_concat_no_newline(p5, n.conservation_after@);
    lemma_concat_no_newline(p5 + n.conservation_after@, comma);
    let p6 = p5 + n.conservation_after@ + comma;
    lemma_concat_no_newline(p6, e.room_id@);
    lemma_concat_no_newline(p6 + e.room_id@, comma);
    lemma_concat_no_newline(p6 + e.room_id@ + comma, tile);
    assert(body == p6 + e.room_id@ + comma + tile);
    let row = body + "\n"@;
    assert(row == csv_row(e, n));
    assert(row.drop_last() =~= body);
    lemma_count_line(row, '\n');
}

proof fn lemma_csv_rows_lines(entries: Seq<ProvenanceEntry>, numbers: Seq<NumberTexts>, k: nat)
    requires
        k <= entries.len(),
        k <= numbers.len(),
        forall|i: int| 0 <= i < k ==> csv_row_is_one_line(#[trigger] entries[i], numbers[i]),
    ensures
        count_char(csv_rows(entries, numbers, k), '\n') == k,
        k > 0 ==> csv_rows(entries, numbers, k).last() == '\n',
    decreases k,
{
    if k == 0 {
        assert(count_char(Seq::<char>::empty(), '\n') == 0);
    } else {
        lemma_csv_rows_lines(entries, numbers, (k - 1) as nat);
        let i = k - 1;
        assert(csv_row_is_one_line(entries[i], numbers[i]));
        lemma_csv_row_one_line(entries[i], numbers[i]);
        lemma_count_add(csv_rows(entries, numbers, (k - 1) as nat), csv_row(entries[i], numbers[i]), '\n');
    }
}

/// When no field of any entry holds a line break, the CSV text ends with a
/// line break and has one line per entry after the header line; each entry
/// line is the row of that entry (see `csv_row`).
pub proof fn law_csv_has_one_line_per_entry(entries: Seq<ProvenanceEntry>, numbers: Seq<NumberTexts>)
    requires
        numbers.len() == entries.len(),
        forall|i: int| 0 <= i < entries.len() ==> csv_row_is_one_line(#[trigger] entries[i], numbers[i]),
    ensures
        count_char(csv_header() + csv_rows(entries, numbers, entries.len()), '\n') == entries.len() + 1,
        (csv_header() + csv_rows(entries, numbers, entries.len())).last() == '\n',
{
    let h = csv_header();
    reveal_strlit("id,timestamp,agent_id,decision,reasoning,confidence,conservation_before,conservation_after,room_id,tile_id\n");
    assert(h.last() == '\n');
    assert(!h.drop_last().contains('\n'));
    lemma_count_line(h, '\n');
    let rows = csv_rows(entries, numbers, entries.len());
    lemma_csv_rows_lines(entries, numbers, entries.len());
    lemma_count_add(h, rows, '\n');
    if rows.len() == 0 {
        assert(h + rows =~= h);
    } else {
        assert((h + rows).last() == rows.last());
    }
}

proof fn lemma_mermaid_lines_count(i: nat, d: Seq<char>)
    requires
        !d.contains('\n'),
    ensures
        count_char(mermaid_lines(i, d), '\n') == if i == 0 { 1nat } else { 2nat },
        mermaid_lines(i, d).last() == '\n',
{
    reveal_strlit("    N");
    reveal_strlit("[\"");
    reveal_strlit("\"]\n");
    reveal_strlit(" --> N");
    reveal_strlit("\n");
    lemma_decimal_no_newline(i);
    reveal_strlit("\\\"");
    reveal_strlit("\"]");
    assert(!"\\\""@.contains('\n'));
    lemma_replace_no_newline(d, '"', "\\\""@);
    let head = "    N"@ + decimal(i) + "[\""@ + mermaid_label(d);
    assert(!"    N"@.contains('\n'));
    assert(!"[\""@.contains('\n'));
    lemma_concat_no_newline("    N"@, decimal(i));
    lemma_concat_no_newline("    N"@ + decimal(i), "[\""@);
    lemma_concat_no_newline("    N"@ + decimal(i) + "[\""@, mermaid_label(d));
    let node = head + "\"]\n"@;
    assert(node.drop_last() =~= head + "\"]"@);
    assert(!"\"]"@.contains('\n'));
    lemma_concat_no_newline(head, "\"]"@);
    lemma_count_line(node, '\n');
    if i == 0 {
        assert(mermaid_lines(i, d) =~= node);
    } else {
        let edge_head = "    N"@ + decimal((i - 1) as nat) + " --> N"@ + decimal(i);
        lemma_decimal_no_newline((i - 1) as nat);
        assert(!" --> N"@.contains('\n'));
        lemma_concat_no_newline("    N"@, decimal((i - 1) as nat));
        lemma_concat_no_newline("    N"@ + decimal((i - 1) as nat), " --> N"@);
        lemma_concat_no_newline("    N"@ + decimal((i - 1) as nat) + " --> N"@, decimal(i));
        let edge = edge_head + "\n"@;
        assert(edge.drop_last() =~= edge_head);
        lemma_count_line(edge, '\n');
        assert(mermaid_lines(i, d) == node + edge);
        lemma_count_add(node, edge, '\n');
    }
}

proof fn lemma_mermaid_body_count(entries: Seq<ProvenanceEntry>, k: nat)
    requires
        k <= entries.len(),
        forall|i: int| 0 <= i < entries.len() ==> !(#[trigger] entries[i]).decision@.contains('\n'),
    ensures
        count_char(mermaid_body(entries, k), '\n') == if k == 0 { 0 } else { 2 * k - 1 },
        k > 0 ==> mermaid_body(entries, k).last() == '\n',
    decreases k,
{
    if k == 0 {
        assert(count_char(Seq::<char>::empty(), '\n') == 0);
    } else {
        lemma_mermaid_body_count(entries, (k - 1) as nat);
        let d = entries[k - 1].decision@;
        lemma_mermaid_lines_count((k - 1) as nat, d);
        lemma_count_add(mermaid_body(entries, (k - 1) as nat), mermaid_lines((k - 1) as nat, d), '\n');
    }
}

/// When no decision holds a line break, the flowchart text is its header
/// line, then for each entry its node line and, after the first, the edge
/// line from the entry before: one line for an empty chain, two per entry
/// otherwise, and it ends with a line break.
pub proof fn law_mermaid_has_two_lines_per_entry(entries: Seq<ProvenanceEntry>)
    requires
        forall|i: int| 0 <= i < entries.len() ==> !(#[trigger] entries[i]).decision@.contains('\n'),
    ensures
        count_char("graph TD\n"@ + mermaid_body(entries, entries.len()), '\n')
            == if entries.len() == 0 { 1 } else { 2 * entries.len() },
        ("graph TD\n"@ + mermaid_body(entries, entries.len())).last() == '\n',
{
    let h = "graph TD\n"@;
    reveal_strlit("graph TD\n");
    assert(h.drop_last() =~= seq!['g', 'r', 'a', 'p', 'h', ' ', 'T', 'D']);
    lemma_count_line(h, '\n');
    let body = mermaid_body(entries, entries.len());
    lemma_mermaid_body_count(entries, entries.len());
    lemma_count_add(h, body, '\n');
    if body.len() == 0 {
        assert(h + body =~= h);
    } else {
        assert((h + body).last() == body.last());
    }
}


// ---------------------------------------------------------------------------
// Store-wide queries and histories
// ---------------------------------------------------------------------------

/// The entries of all chains that pass `p`.
pub open spec fn matching_entries(slots: Seq<ChainSlot>, p: spec_fn(ProvenanceEntry) -> bool) -> Seq<ProvenanceEntry> {
    all_entries(slots).filter(p)
}

proof fn lemma_gather_filter(slots: Seq<ChainSlot>, p: spec_fn(ProvenanceEntry) -> bool, f: spec_fn(Seq<ProvenanceEntry>) -> Seq<ProvenanceEntry>)
    requires
        forall|es: Seq<ProvenanceEntry>| #[trigger] f(es) == es.filter(p),
    ensures
        gather(slots, f) == matching_entries(slots, p),
    decreases slots.len(),
{
    if slots.len() > 0 {
        lemma_gather_filter(slots.drop_last(), p, f);
        let a = all_entries(slots.drop_last());
        let b = slots.last().chain.entries@;
        Seq::filter_distributes_over_add(a, b, p);
    }
}

proof fn lemma_limited_gather(slots: Seq<ChainSlot>, q: ProvenanceQuery, l: usize)
    requires
        q.limit == Some(l),
    ensures
        gather(slots, query_fn(q)).len() <= matching_entries(slots, admitted_by(q)).len(),
        gather(slots, query_fn(q)).len() >= l || gather(slots, query_fn(q)).len() == matching_entries(slots, admitted_by(q)).len(),
        gather(slots, query_fn(q)).to_multiset().subset_of(matching_entries(slots, admitted_by(q)).to_multiset()),
    decreases slots.len(),
{
    broadcast use vstd::seq_lib::lemma_multiset_commutative;
    broadcast use vstd::multiset::group_multiset_axioms;
    if slots.len() == 0 {
        assert(matching_entries(slots, admitted_by(q)) =~= Seq::<ProvenanceEntry>::empty());
    } else {
        let pre = slots.drop_last();
        lemma_limited_gather(pre, q, l);
        let es = slots.last().chain.entries@;
        let fe = es.filter(admitted_by(q));
        let part = query_entries(q, es);
        Seq::filter_distributes_over_add(all_entries(pre), es, admitted_by(q));
        assert(matching_entries(slots, admitted_by(q)) == matching_entries(pre, admitted_by(q)) + fe);
        assert(gather(slots, query_fn(q)) == gather(pre, query_fn(q)) + part);
        if l < fe.len() {
            assert(part == fe.take(l as int));
            assert(fe == fe.take(l as int) + fe.skip(l as int));
            assert(fe.to_multiset() =~= fe.take(l as int).to_multiset().add(fe.skip(l as int).to_multiset()));
        } else {
            assert(part == fe);
        }
        assert(part.to_multiset().subset_of(fe.to_multiset()));
        let g0 = gather(pre, query_fn(q));
        let m0 = matching_entries(pre, admitted_by(q));
        assert((g0 + part).to_multiset() =~= g0.to_multiset().add(part.to_multiset()));
        assert((m0 + fe).to_multiset() =~= m0.to_multiset().add(fe.to_multiset()));
    }
}

/// What a store-wide query returns, as a multiset, is drawn from the
/// entries of all chains that pass every filter of the query; without a
/// limit it is exactly those entries (in store order), and with a limit `l`
/// there are as many as `l` or as there are such entries, whichever is fewer.
pub proof fn law_store_query_draws_from_matching_entries(slots: Seq<ChainSlot>, q: ProvenanceQuery)
    ensures
        q.limit is None ==> store_query(slots, q) == matching_entries(slots, admitted_by(q)),
        store_query(slots, q).len() == match q.limit {
            Some(l) => if (l as int) < matching_entries(slots, admitted_by(q)).len() {
                l as int
            } else {
                matching_entries(slots, admitted_by(q)).len() as int
            },
            None => matching_entries(slots, admitted_by(q)).len() as int,
        },
        store_query(slots, q).to_multiset().subset_of(matching_entries(slots, admitted_by(q)).to_multiset()),
{
    broadcast use vstd::seq_lib::lemma_multiset_commutative;
    broadcast use vstd::multiset::group_multiset_axioms;
    match q.limit {
        None => {
            assert forall|es: Seq<ProvenanceEntry>| #[trigger] query_fn(q)(es) == es.filter(admitted_by(q)) by {}
            lemma_gather_filter(slots, admitted_by(q), query_fn(q));
        },
        Some(l) => {
            lemma_limited_gather(slots, q, l);
            let g = gather(slots, query_fn(q));
            if l < g.len() {
                assert(g == g.take(l as int) + g.skip(l as int));
                assert(g.to_multiset() =~= g.take(l as int).to_multiset().add(g.skip(l as int).to_multiset()));
            }
        },
    }
}

/// An agent's history is exactly that agent's entries across all chains, in
/// store order and chain order (so each of them once, as a multiset too);
/// the same holds of a room's history.
pub proof fn law_histories_are_matching_entries(slots: Seq<ChainSlot>, agent: Seq<char>, room: Seq<char>)
    ensures
        gather(slots, of_agent(agent)) == matching_entries(slots, agent_is(agent)),
        gather(slots, of_room(room)) == matching_entries(slots, room_is(room)),
{
    assert forall|es: Seq<ProvenanceEntry>| #[trigger] of_agent(agent)(es) == es.filter(agent_is(agent)) by {}
    lemma_gather_filter(slots, agent_is(agent), of_agent(agent));
    assert forall|es: Seq<ProvenanceEntry>| #[trigger] of_room(room)(es) == es.filter(room_is(room)) by {}
    lemma_gather_filter(slots, room_is(room), of_room(room));
}


// ---------------------------------------------------------------------------
// What the filters keep, stated on the entries' fields
// ---------------------------------------------------------------------------

/// Every entry a query returns satisfies, field by field, each filter the
/// query sets: the same agent, the same room, a timestamp within the
/// inclusive range, a confidence that does not compare below the minimum,
/// and a decision containing the given text. Without a limit, every entry
/// of the chain that satisfies all of them is returned.
pub proof fn law_query_keeps_exactly_the_matching_fields(q: ProvenanceQuery, es: Seq<ProvenanceEntry>)
    ensures
        forall|i: int| 0 <= i < query_entries(q, es).len() ==> {
            let e = #[trigger] query_entries(q, es)[i];
            &&& (q.agent_id matches Some(a) ==> e.agent_id@ == a@)
            &&& (q.room_id matches Some(r) ==> e.room_id@ == r@)
            &&& (q.time_range matches Some(range) ==> range.0 <= e.timestamp && e.timestamp <= range.1)
            &&& (q.min_confidence matches Some(m) ==> !f64_lt(e.confidence, m))
            &&& (q.decision_contains matches Some(n) ==> contains_text(e.decision@, n@))
        },
        q.limit is None ==> forall|j: int| 0 <= j < es.len() && {
            let e = #[trigger] es[j];
            &&& (q.agent_id matches Some(a) ==> e.agent_id@ == a@)
            &&& (q.room_id matches Some(r) ==> e.room_id@ == r@)
            &&& (q.time_range matches Some(range) ==> range.0 <= e.timestamp && e.timestamp <= range.1)
            &&& (q.min_confidence matches Some(m) ==> !f64_lt(e.confidence, m))
            &&& (q.decision_contains matches Some(n) ==> contains_text(e.decision@, n@))
        } ==> query_entries(q, es).contains(es[j]),
{
    broadcast use vstd::seq_lib::group_filter_ensures;
    let f = es.filter(admitted_by(q));
    let r = query_entries(q, es);
    assert forall|i: int| 0 <= i < r.len() implies admits(q, #[trigger] r[i]) by {
        assert(r[i] == f[i]);
        es.lemma_filter_pred(admitted_by(q), i);
    }
    if q.limit is None {
        assert forall|j: int| 0 <= j < es.len() && admits(q, #[trigger] es[j]) implies r.contains(es[j]) by {
            es.lemma_filter_contains(admitted_by(q), j);
        }
    }
}

/// `by_agent`, `by_room` and `by_time_range`, stated on the fields: what
/// comes back has exactly the agent asked for, exactly the room asked for,
/// or a timestamp in the inclusive range; and every entry of the chain that
/// has it comes back.
pub proof fn law_chain_filters_match_fields(es: Seq<ProvenanceEntry>, agent: Seq<char>, room: Seq<char>, start: u64, end: u64)
    ensures
        forall|i: int| 0 <= i < es.filter(agent_is(agent)).len() ==> (#[trigger] es.filter(agent_is(agent))[i]).agent_id@ == agent,
        forall|j: int| 0 <= j < es.len() && (#[trigger] es[j]).agent_id@ == agent ==> es.filter(agent_is(agent)).contains(es[j]),
        forall|i: int| 0 <= i < es.filter(room_is(room)).len() ==> (#[trigger] es.filter(room_is(room))[i]).room_id@ == room,
        forall|j: int| 0 <= j < es.len() && (#[trigger] es[j]).room_id@ == room ==> es.filter(room_is(room)).contains(es[j]),
        forall|i: int| 0 <= i < es.filter(time_within(start, end)).len() ==> {
            let t = (#[trigger] es.filter(time_within(start, end))[i]).timestamp;
            start <= t && t <= end
        },
        forall|j: int| 0 <= j < es.len() && start <= (#[trigger] es[j]).timestamp && es[j].timestamp <= end
            ==> es.filter(time_within(start, end)).contains(es[j]),
{
    broadcast use vstd::seq_lib::group_filter_ensures;
    assert forall|i: int| 0 <= i < es.filter(agent_is(agent)).len() implies (#[trigger] es.filter(agent_is(agent))[i]).agent_id@ == agent by {
        es.lemma_filter_pred(agent_is(agent), i);
    }
    assert forall|j: int| 0 <= j < es.len() && (#[trigger] es[j]).agent_id@ == agent implies es.filter(agent_is(agent)).contains(es[j]) by {
        es.lemma_filter_contains(agent_is(agent), j);
    }
    assert forall|i: int| 0 <= i < es.filter(room_is(room)).len() implies (#[trigger] es.filter(room_is(room))[i]).room_id@ == room by {
        es.lemma_filter_pred(room_is(room), i);
    }
    assert forall|j: int| 0 <= j < es.len() && (#[trigger] es[j]).room_id@ == room implies es.filter(room_is(room)).contains(es[j]) by {
        es.lemma_filter_contains(room_is(room), j);
    }
    assert forall|i: int| 0 <= i < es.filter(time_within(start, end)).len() implies {
        let t = (#[trigger] es.filter(time_within(start, end))[i]).timestamp;
        start <= t && t <= end
    } by {
        es.lemma_filter_pred(time_within(start, end), i);
    }
    assert forall|j: int| 0 <= j < es.len() && start <= (#[trigger] es[j]).timestamp && es[j].timestamp <= end
        implies es.filter(time_within(start, end)).contains(es[j]) by {
        es.lemma_filter_contains(time_within(start, end), j);
    }
}

/// An agent's history across the store holds only entries with exactly that
/// agent, and every entry of every chain with that agent; the same for a
/// room's history.
pub proof fn law_histories_match_fields(slots: Seq<ChainSlot>, agent: Seq<char>, room: Seq<char>)
    ensures
        forall|i: int| 0 <= i < gather(slots, of_agent(agent)).len() ==> (#[trigger] gather(slots, of_agent(agent))[i]).agent_id@ == agent,
        forall|j: int| 0 <= j < all_entries(slots).len() && (#[trigger] all_entries(slots)[j]).agent_id@ == agent
            ==> gather(slots, of_agent(agent)).contains(all_entries(slots)[j]),
        forall|i: int| 0 <= i < gather(slots, of_room(room)).len() ==> (#[trigger] gather(slots, of_room(room))[i]).room_id@ == room,
        forall|j: int| 0 <= j < all_entries(slots).len() && (#[trigger] all_entries(slots)[j]).room_id@ == room
            ==> gather(slots, of_room(room)).contains(all_entries(slots)[j]),
{
    law_histories_are_matching_entries(slots, agent, room);
    law_chain_filters_match_fields(all_entries(slots), agent, room, 0, 0);
}

// ---------------------------------------------------------------------------
// Gaps as the long neighbour pairs
// ---------------------------------------------------------------------------

/// Each timestamp paired with the one after it, in order.
pub open spec fn neighbour_pairs(t: Seq<u64>) -> Seq<(u64, u64)> {
    Seq::new(if t.len() == 0 { 0 } else { (t.len() - 1) as nat }, |k: int| (t[k], t[k + 1]))
}

/// A pair more than an hour apart.
pub open spec fn over_an_hour() -> spec_fn((u64, u64)) -> bool {
    |p: (u64, u64)| p.1 - p.0 > 3600
}

/// The gaps are exactly the neighbour pairs more than an hour apart, all of
/// them, in order.
pub proof fn law_gaps_are_all_long_neighbour_pairs(t: Seq<u64>)
    ensures
        gap_pairs(t) == neighbour_pairs(t).filter(over_an_hour()),
    decreases t.len(),
{
    if t.len() < 2 {
        assert(neighbour_pairs(t) =~= Seq::<(u64, u64)>::empty());
        reveal(Seq::filter);
        assert(Seq::<(u64, u64)>::empty().filter(over_an_hour()) =~= Seq::<(u64, u64)>::empty());
    } else {
        let n = t.len();
        let p = t.drop_last();
        law_gaps_are_all_long_neighbour_pairs(p);
        assert(neighbour_pairs(t) =~= neighbour_pairs(p).push((t[n - 2], t[n - 1])));
        lemma_filter_push(neighbour_pairs(p), (t[n - 2], t[n - 1]), over_an_hour());
        if t[n - 1] - t[n - 2] > 3600 {
            assert(gap_pairs(t) =~= gap_pairs(p).push((t[n - 2], t[n - 1])));
        } else {
            assert(gap_pairs(t) =~= gap_pairs(p));
        }
    }
}

/// An audit's gaps are exactly the pairs of neighbours, in the sorted
/// timestamps of all entries, that lie more than an hour apart.
pub proof fn law_audit_gaps_are_all_long_neighbour_pairs(a: ProvenanceAudit, slots: Seq<ChainSlot>)
    requires
        is_audit_of(a, slots),
    ensures
        a.gaps@ == neighbour_pairs(all_entries(slots).map_values(timestamp_of()).sort_by(u64_leq())).filter(over_an_hour()),
{
    law_gaps_are_all_long_neighbour_pairs(all_entries(slots).map_values(timestamp_of()).sort_by(u64_leq()));
}

// ---------------------------------------------------------------------------
// Find and path in preorder
// ---------------------------------------------------------------------------

/// The nodes of the tree in preorder: a node, then the nodes of each of its
/// children's trees, children in order.
pub open spec fn preorder(m: NodeModel) -> Seq<NodeModel>
    decreases m,
{
    seq![m] + preorder_all(m.children)
}

/// The nodes of the trees of `s` in preorder, one tree after another.
pub open spec fn preorder_all(s: Seq<NodeModel>) -> Seq<NodeModel>
    decreases s,
{
    if s.len() == 0 {
        Seq::empty()
    } else {
        preorder_all(s.subrange(0, s.len() - 1)) + preorder(s[s.len() - 1])
    }
}

/// `n` is at position `i` of `p`, carries `target`, and no node before it does.
pub open spec fn first_carrier_at(p: Seq<NodeModel>, target: Seq<char>, i: int, n: NodeModel) -> bool {
    &&& 0 <= i < p.len()
    &&& p[i] == n
    &&& n.decision == target
    &&& forall|j: int| 0 <= j < i ==> (#[trigger] p[j]).decision != target
}

/// No node of `p` carries `target`.
pub open spec fn no_carrier(p: Seq<NodeModel>, target: Seq<char>) -> bool {
    forall|j: int| 0 <= j < p.len() ==> (#[trigger] p[j]).decision != target
}

#[verifier::spinoff_prover]
proof fn lemma_find_first_in_preorder(m: NodeModel, target: Seq<char>)
    ensures
        match find_model(m, target) {
            Some(n) => exists|i: int| first_carrier_at(preorder(m), target, i, n),
            None => no_carrier(preorder(m), target),
        },
    decreases m,
{
    let p = preorder(m);
    let pa = preorder_all(m.children);
    assert(p == seq![m] + pa);
    if m.decision == target {
        assert(p[0] == m);
        assert(first_carrier_at(p, target, 0, m));
        assert(find_model(m, target) == Some(m));
        assert(first_carrier_at(preorder(m), target, 0, find_model(m, target)->0));
    } else {
        lemma_find_all_first_in_preorder(m.children, target);
        assert(find_model(m, target) == find_in_all(m.children, target));
        assert(p[0] == m);
        match find_in_all(m.children, target) {
            Some(n) => {
                let i = choose|i: int| first_carrier_at(pa, target, i, n);
                assert(p[i + 1] == pa[i]);
                assert forall|j: int| 0 <= j < i + 1 implies (#[trigger] p[j]).decision != target by {
                    if j > 0 {
                        assert(p[j] == pa[j - 1]);
                    }
                }
                assert(first_carrier_at(p, target, i + 1, n));
                assert(find_model(m, target) == Some(n));
            },
            None => {
                assert forall|j: int| 0 <= j < p.len() implies (#[trigger] p[j]).decision != target by {
                    if j > 0 {
                        assert(p[j] == pa[j - 1]);
                    }
                }
                assert(no_carrier(p, target));
                assert(find_model(m, target) is None);
            },
        }
    }
}

#[verifier::spinoff_prover]
proof fn lemma_find_all_first_in_preorder(s: Seq<NodeModel>, target: Seq<char>)
    ensures
        match find_in_all(s, target) {
            Some(n) => exists|i: int| first_carrier_at(preorder_all(s), target, i, n),
            None => no_carrier(preorder_all(s), target),
        },
    decreases s,
{
    if s.len() > 0 {
        let pre = s.subrange(0, s.len() - 1);
        let last = s[s.len() - 1];
        let pp = preorder_all(pre);
        let pl = preorder(last);
        let p = preorder_all(s);
        assert(p == pp + pl);
        lemma_find_all_first_in_preorder(pre, target);
        lemma_find_first_in_preorder(last, target);
        match find_in_all(pre, target) {
            Some(n) => {
                let i = choose|i: int| first_carrier_at(pp, target, i, n);
                assert(p[i] == pp[i]);
                assert forall|j: int| 0 <= j < i implies (#[trigger] p[j]).decision != target by {
                    assert(p[j] == pp[j]);
                }
                assert(first_carrier_at(p, target, i, n));
            },
            None => {
                match find_model(last, target) {
                    Some(n) => {
                        let i = choose|i: int| first_carrier_at(pl, target, i, n);
                        let k = pp.len() + i;
                        assert(p[k] == pl[i]);
                        assert forall|j: int| 0 <= j < k implies (#[trigger] p[j]).decision != target by {
                            if j < pp.len() {
                                assert(p[j] == pp[j]);
                            } else {
                                assert(p[j] == pl[j - pp.len()]);
                            }
                        }
                        assert(first_carrier_at(p, target, k, n));
                    },
                    None => {
                        assert forall|j: int| 0 <= j < p.len() implies (#[trigger] p[j]).decision != target by {
                            if j < pp.len() {
                                assert(p[j] == pp[j]);
                            } else {
                                assert(p[j] == pl[j - pp.len()]);
                            }
                        }
                    },
                }
            },
        }
    } else {
        assert(preorder_all(s) =~= Seq::<NodeModel>::empty());
    }
}

/// `find` returns the first node in preorder (a node before its children,
/// children left to right) that carries the decision, and nothing when no
/// node does; in particular a root that carries it is found itself, and the
/// path to it is the root alone.
pub proof fn law_find_is_first_in_preorder(m: NodeModel, target: Seq<char>)
    ensures
        match find_model(m, target) {
            Some(n) => exists|i: int| first_carrier_at(preorder(m), target, i, n),
            None => no_carrier(preorder(m), target),
        },
        m.decision == target ==> find_model(m, target) == Some(m) && path_model(m, target) == Some(seq![m]),
{
    lemma_find_first_in_preorder(m, target);
}

// ---------------------------------------------------------------------------
// Export rows, entry by entry
// ---------------------------------------------------------------------------

/// The CSV row text of each entry, written out field by field from that
/// entry and its own number texts.
pub open spec fn csv_lines_of(entries: Seq<ProvenanceEntry>, numbers: Seq<NumberTexts>) -> Seq<Seq<char>> {
    Seq::new(entries.len(), |i: int|
        entries[i].id@ + ","@ + decimal(entries[i].timestamp as nat) + ","@ + entries[i].agent_id@ + ","@
            + replace_char(entries[i].decision@, ',', "\\,"@) + ","@ + replace_char(entries[i].reasoning@, ',', "\\,"@)
            + ","@ + numbers[i].confidence@ + ","@ + numbers[i].conservation_before@ + ","@
            + numbers[i].conservation_after@ + ","@ + entries[i].room_id@ + ","@ + (match entries[i].tile_id {
            Some(t) => t@,
            None => Seq::empty(),
        }) + "\n"@)
}

proof fn lemma_csv_rows_flat(entries: Seq<ProvenanceEntry>, numbers: Seq<NumberTexts>, k: nat)
    requires
        k <= entries.len(),
        numbers.len() == entries.len(),
    ensures
        csv_rows(entries, numbers, k) == csv_lines_of(entries, numbers).take(k as int).flatten(),
    decreases k,
{
    let lines = csv_lines_of(entries, numbers);
    if k == 0 {
        assert(lines.take(0) =~= Seq::<Seq<char>>::empty());
    } else {
        lemma_csv_rows_flat(entries, numbers, (k - 1) as nat);
        assert(lines.take(k as int) =~= lines.take(k - 1).push(lines[k - 1]));
        lines.take(k - 1).lemma_flatten_push(lines[k - 1]);
        assert(lines[k - 1] == csv_row(entries[k - 1], numbers[k - 1]));
    }
}

/// The CSV text is the header followed, for each entry in order, by one row
/// built from that entry's fields and that entry's own number texts: the
/// confidence column of row `i` is `numbers[i].confidence`, and so on.
pub proof fn law_csv_row_i_is_entry_i(entries: Seq<ProvenanceEntry>, numbers: Seq<NumberTexts>)
    requires
        numbers.len() == entries.len(),
    ensures
        csv_header() + csv_rows(entries, numbers, entries.len()) == csv_header() + csv_lines_of(entries, numbers).flatten(),
{
    lemma_csv_rows_flat(entries, numbers, entries.len());
    assert(csv_lines_of(entries, numbers).take(entries.len() as int) =~= csv_lines_of(entries, numbers));
}

/// The flowchart lines of each entry, written out: node `N<i>` labelled
/// with entry `i`'s decision, then for each entry after the first an edge
/// from the entry before.
pub open spec fn mermaid_lines_of(entries: Seq<ProvenanceEntry>) -> Seq<Seq<char>> {
    Seq::new(entries.len(), |i: int|
        "    N"@ + decimal(i as nat) + "[\""@ + replace_char(entries[i].decision@, '"', "\\\""@) + "\"]\n"@ + (if i > 0 {
            "    N"@ + decimal((i - 1) as nat) + " --> N"@ + decimal(i as nat) + "\n"@
        } else {
            Seq::empty()
        }))
}

proof fn lemma_mermaid_body_flat(entries: Seq<ProvenanceEntry>, k: nat)
    requires
        k <= entries.len(),
    ensures
        mermaid_body(entries, k) == mermaid_lines_of(entries).take(k as int).flatten(),
    decreases k,
{
    let lines = mermaid_lines_of(entries);
    if k == 0 {
        assert(lines.take(0) =~= Seq::<Seq<char>>::empty());
    } else {
        lemma_mermaid_body_flat(entries, (k - 1) as nat);
        assert(lines.take(k as int) =~= lines.take(k - 1).push(lines[k - 1]));
        lines.take(k - 1).lemma_flatten_push(lines[k - 1]);
        assert(lines[k - 1] == mermaid_lines((k - 1) as nat, entries[k - 1].decision@));
    }
}

/// The flowchart is `graph TD` followed, for each entry in order, by its
/// node line and (after the first) the edge from the entry before.
pub proof fn law_mermaid_lines_are_entry_lines(entries: Seq<ProvenanceEntry>)
    ensures
        "graph TD\n"@ + mermaid_body(entries, entries.len()) == "graph TD\n"@ + mermaid_lines_of(entries).flatten(),
{
    lemma_mermaid_body_flat(entries, entries.len());
    assert(mermaid_lines_of(entries).take(entries.len() as int) =~= mermaid_lines_of(entries));
}


// ---------------------------------------------------------------------------
// Limits, numbers and decimal text
// ---------------------------------------------------------------------------

/// A query with a limit returns the first entries of what the same query
/// without the limit returns: as many as the limit, or all when there are
/// fewer.
pub proof fn law_limit_keeps_a_prefix(q: ProvenanceQuery, es: Seq<ProvenanceEntry>, l: usize)
    requires
        q.limit == Some(l),
    ensures
        ({
            let all = query_entries(ProvenanceQuery { limit: None, ..q }, es);
            let cut = query_entries(q, es);
            &&& cut.len() == if (l as int) < all.len() { l as int } else { all.len() as int }
            &&& cut == all.take(cut.len() as int)
        }),
{
    let q2 = ProvenanceQuery { limit: None, ..q };
    assert(admitted_by(q2) == admitted_by(q)) by {
        assert forall|e: ProvenanceEntry| #[trigger] admitted_by(q2)(e) == admitted_by(q)(e) by {}
        assert(admitted_by(q2) =~= admitted_by(q));
    }
    let all = query_entries(q2, es);
    if (l as int) >= all.len() {
        assert(all.take(all.len() as int) =~= all);
    }
}

/// Comparison of floating-point values on their bit patterns: a NaN is
/// neither below nor above anything; among non-negative values the order is
/// that of the patterns as integers, among negative values the reverse; a
/// negative value is below a non-negative one except `-0.0` against `0.0`;
/// and of two non-NaN values one is below the other unless they are the
/// same number.
pub proof fn law_float_order(a: u64, b: u64)
    ensures
        is_nan_bits(a) ==> !f64_lt(a, b) && !f64_lt(b, a),
        !is_nan_bits(a) && !is_nan_bits(b) && a < 0x8000_0000_0000_0000u64 && b < 0x8000_0000_0000_0000u64
            ==> (f64_lt(a, b) <==> a < b),
        !is_nan_bits(a) && !is_nan_bits(b) && a >= 0x8000_0000_0000_0000u64 && b >= 0x8000_0000_0000_0000u64
            ==> (f64_lt(a, b) <==> a > b),
        !is_nan_bits(a) && !is_nan_bits(b) && a >= 0x8000_0000_0000_0000u64 && b < 0x8000_0000_0000_0000u64
            ==> (f64_lt(a, b) <==> !(a == 0x8000_0000_0000_0000u64 && b == 0)),
        !is_nan_bits(a) && !is_nan_bits(b) ==> (f64_lt(a, b) || f64_lt(b, a) || a == b
            || (magnitude(a) == 0 && magnitude(b) == 0)),
{
}

/// The value of a run of decimal digits, most significant first.
pub open spec fn digits_value(s: Seq<char>) -> int
    decreases s.len(),
{
    if s.len() == 0 {
        0
    } else {
        digits_value(s.drop_last()) * 10 + (s.last() as int - '0' as int)
    }
}

proof fn lemma_digit_value(d: nat)
    requires
        d < 10,
    ensures
        digit_char(d) as int - '0' as int == d,
        '0' <= digit_char(d) <= '9',
        d != 0 ==> digit_char(d) != '0',
{
    assert('0' as int == 48);
    if d == 0 { assert('0' as int == 48); }
    else if d == 1 { assert('1' as int == 49); }
    else if d == 2 { assert('2' as int == 50); }
    else if d == 3 { assert('3' as int == 51); }
    else if d == 4 { assert('4' as int == 52); }
    else if d == 5 { assert('5' as int == 53); }
    else if d == 6 { assert('6' as int == 54); }
    else if d == 7 { assert('7' as int == 55); }
    else if d == 8 { assert('8' as int == 56); }
    else { assert('9' as int == 57); }
}

/// The decimal rendering of `n` is made of the digits `0`-`9`, has no
/// leading zero (except for zero itself, which is `0`), and reads back as `n`.
pub proof fn law_decimal_reads_back(n: nat)
    ensures
        forall|i: int| 0 <= i < decimal(n).len() ==> '0' <= #[trigger] decimal(n)[i] && decimal(n)[i] <= '9',
        decimal(n)[0] != '0' || n == 0,
        n == 0 ==> decimal(n) == seq!['0'],
        digits_value(decimal(n)) == n,
    decreases n,
{
    lemma_decimal_nonempty(n);
    if n < 10 {
        lemma_digit_value(n);
        assert(decimal(n).drop_last() =~= Seq::<char>::empty());
        assert(digits_value(decimal(n).drop_last()) == 0);
    } else {
        lemma_digit_value(n % 10);
        law_decimal_reads_back(n / 10);
        let d = decimal(n);
        let h = decimal(n / 10);
        assert(d.drop_last() =~= h);
        assert forall|i: int| 0 <= i < d.len() implies '0' <= #[trigger] d[i] && d[i] <= '9' by {
            if i < h.len() {
                assert(d[i] == h[i]);
            }
        }
        assert(d[0] == h[0]);
        assert(digits_value(d) == digits_value(h) * 10 + (n % 10));
    }
}


// ---------------------------------------------------------------------------
// Recording and auditing, stated on the entries
// ---------------------------------------------------------------------------

/// After recording, the chain filed under the entry's key holds the entries
/// it held before (none for a new key) followed by the new entry, cut to the
/// newest `max` of them in order; an existing chain keeps its identifier and
/// a new one is named `chain-<agent>`.
pub proof fn law_record_appends_then_keeps_newest(
    old: Seq<ChainSlot>,
    new: Seq<ChainSlot>,
    entry: ProvenanceEntry,
    max: nat,
)
    requires
        recorded(old, new, entry, max),
    ensures
        ({
            let key = chain_key(entry.agent_id@, entry.room_id@);
            let before = match chain_for(old, key) {
                Some(c) => c.entries@,
                None => Seq::empty(),
            };
            let full = before.push(entry);
            &&& chain_for(new, key) is Some
            &&& chain_for(new, key)->0.entries@.len() == if full.len() > max { max } else { full.len() }
            &&& forall|i: int| 0 <= i < chain_for(new, key)->0.entries@.len() ==>
                #[trigger] chain_for(new, key)->0.entries@[i] == full[full.len() - chain_for(new, key)->0.entries@.len() + i]
            &&& match chain_for(old, key) {
                Some(c) => chain_for(new, key)->0.chain_id == c.chain_id,
                None => chain_for(new, key)->0.chain_id@ == seq!['c', 'h', 'a', 'i', 'n', '-'] + entry.agent_id@,
            }
        }),
{
    let key = chain_key(entry.agent_id@, entry.room_id@);
    lemma_first_key_index(old, key);
    lemma_first_key_index(new, key);
    let n = old.len() as int;
    assert forall|i: int| 0 <= i < n implies #[trigger] new[i].key@ == old[i].key@ by {
        if has_key(old, key) && i == first_key_index(old, key) {
        } else {
            assert(new[i] == old[i]);
        }
    }
    if has_key(old, key) {
        let f = first_key_index(old, key);
        assert(is_first_key_index(new, key, f));
        assert(first_key_index(new, key) == f);
        law_eviction_keeps_newest(old[f].chain.entries@.push(entry), max);
    } else {
        assert(is_first_key_index(new, key, n));
        assert(first_key_index(new, key) == n);
        assert(Seq::<ProvenanceEntry>::empty().push(entry) =~= seq![entry]);
        law_eviction_keeps_newest(seq![entry], max);
    }
}

/// An audit counts every entry and every chain; its confidence distribution
/// is the confidence of each entry, in store order; the agents (rooms) it
/// lists repeat none and are exactly the agents (rooms) of the entries; and
/// its gaps are the neighbour pairs more than an hour apart among the
/// entries' timestamps put in ascending order.
pub proof fn law_audit_fields(a: ProvenanceAudit, slots: Seq<ChainSlot>)
    requires
        is_audit_of(a, slots),
    ensures
        a.total_entries == all_entries(slots).len(),
        a.total_chains == slots.len(),
        a.confidence_distribution@.len() == all_entries(slots).len(),
        forall|i: int| 0 <= i < all_entries(slots).len() ==>
            a.confidence_distribution@[i] == (#[trigger] all_entries(slots)[i]).confidence,
        texts(a.agents_seen@).no_duplicates(),
        forall|x: Seq<char>| texts(a.agents_seen@).contains(x)
            <==> exists|i: int| 0 <= i < all_entries(slots).len() && (#[trigger] all_entries(slots)[i]).agent_id@ == x,
        texts(a.rooms_seen@).no_duplicates(),
        forall|x: Seq<char>| texts(a.rooms_seen@).contains(x)
            <==> exists|i: int| 0 <= i < all_entries(slots).len() && (#[trigger] all_entries(slots)[i]).room_id@ == x,
        exists|t: Seq<u64>| {
            &&& forall|i: int, j: int| 0 <= i <= j < t.len() ==> t[i] <= t[j]
            &&& t.to_multiset() == all_entries(slots).map_values(|e: ProvenanceEntry| e.timestamp).to_multiset()
            &&& a.gaps@ == neighbour_pairs(t).filter(over_an_hour())
        },
{
    let es = all_entries(slots);
    let ag = es.map_values(agent_of());
    let rm = es.map_values(room_of());
    law_audit_lists_each_once(ag);
    law_audit_lists_each_once(rm);
    assert forall|x: Seq<char>| texts(a.agents_seen@).contains(x)
        <==> exists|i: int| 0 <= i < es.len() && (#[trigger] es[i]).agent_id@ == x by {
        if ag.contains(x) {
            let k = choose|k: int| 0 <= k < ag.len() && ag[k] == x;
            assert(es[k].agent_id@ == x);
        }
        if exists|i: int| 0 <= i < es.len() && (#[trigger] es[i]).agent_id@ == x {
            let i = choose|i: int| 0 <= i < es.len() && (#[trigger] es[i]).agent_id@ == x;
            assert(ag[i] == x);
        }
    }
    assert forall|x: Seq<char>| texts(a.rooms_seen@).contains(x)
        <==> exists|i: int| 0 <= i < es.len() && (#[trigger] es[i]).room_id@ == x by {
        if rm.contains(x) {
            let k = choose|k: int| 0 <= k < rm.len() && rm[k] == x;
            assert(es[k].room_id@ == x);
        }
        if exists|i: int| 0 <= i < es.len() && (#[trigger] es[i]).room_id@ == x {
            let i = choose|i: int| 0 <= i < es.len() && (#[trigger] es[i]).room_id@ == x;
            assert(rm[i] == x);
        }
    }
    assert forall|i: int| 0 <= i < es.len() implies a.confidence_distribution@[i] == (#[trigger] es[i]).confidence by {
        assert(es.map_values(confidence_of())[i] == es[i].confidence);
    }
    let raw = es.map_values(timestamp_of());
    assert(raw =~= es.map_values(|e: ProvenanceEntry| e.timestamp));
    assert(total_ordering(u64_leq()));
    raw.lemma_sort_by_ensures(u64_leq());
    let t = raw.sort_by(u64_leq());
    assert forall|i: int, j: int| 0 <= i <= j < t.len() implies t[i] <= t[j] by {
        if i < j {
            assert(u64_leq()(t[i], t[j]));
        }
    }
    law_gaps_are_all_long_neighbour_pairs(t);
}


// ---------------------------------------------------------------------------
// The pieces of the decision tree, stated on the entries
// ---------------------------------------------------------------------------

/// The node of an entry carries its decision and confidence, and has one
/// child per alternative, in order: a leaf with that alternative as its
/// decision and confidence `0.0`.
pub proof fn law_entry_node_has_alternative_leaves(e: ProvenanceEntry)
    ensures
        entry_node(e).decision == e.decision@,
        entry_node(e).confidence == e.confidence,
        entry_node(e).children.len() == e.alternatives@.len(),
        forall|i: int| 0 <= i < e.alternatives@.len() ==> {
            &&& (#[trigger] entry_node(e).children[i]).decision == e.alternatives@[i]@
            &&& entry_node(e).children[i].confidence == 0
            &&& entry_node(e).children[i].children.len() == 0
        },
{
}

/// A chain of one entry gives that entry's node as the whole tree.
pub proof fn law_single_entry_tree(e: ProvenanceEntry)
    ensures
        tree_of(seq![e]) == entry_node(e),
{
}

/// Attaching at the end of the last-child line: the node keeps its decision
/// and confidence and every child but the last; the last-child line gets the
/// attached tree's line appended; the node count adds up.
pub proof fn law_spine_append_attaches_at_line_end(m: NodeModel, c: NodeModel)
    ensures
        spine_append(m, c).decision == m.decision,
        spine_append(m, c).confidence == m.confidence,
        spine_append(m, c).children.len() == if m.children.len() == 0 { 1 } else { m.children.len() },
        forall|i: int| 0 <= i < m.children.len() - 1 ==> #[trigger] spine_append(m, c).children[i] == m.children[i],
        spine_labels(spine_append(m, c)) == spine_labels(m) + spine_labels(c),
        count(spine_append(m, c)) == count(m) + count(c),
    decreases m,
{
    lemma_count_spine_append(m, c);
    let r = spine_append(m, c);
    if m.children.len() == 0 {
        assert(r.children == seq![c]);
        assert(spine_labels(r) =~= spine_labels(m) + spine_labels(c));
    } else {
        let l = m.children.len() - 1;
        law_spine_append_attaches_at_line_end(m.children[l], c);
        assert(r.children[l] == spine_append(m.children[l], c));
        assert(spine_labels(r) =~= spine_labels(m) + spine_labels(c));
    }
}


proof fn lemma_count_all_is_preorder_length(s: Seq<NodeModel>)
    ensures
        count_all(s) == preorder_all(s).len(),
    decreases s,
{
    if s.len() > 0 {
        lemma_count_all_is_preorder_length(s.subrange(0, s.len() - 1));
        law_node_count_is_preorder_length(s[s.len() - 1]);
    }
}

/// The node count of a tree is the number of nodes met when walking it in
/// preorder: the node itself and every node below it, once each.
pub proof fn law_node_count_is_preorder_length(m: NodeModel)
    ensures
        count(m) == preorder(m).len(),
    decreases m,
{
    lemma_count_all_is_preorder_length(m.children);
}

} // verus!
