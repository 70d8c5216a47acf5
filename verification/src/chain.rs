//! Append-only chains of decision entries and the decision tree they form.
use vstd::prelude::*;
use vstd::string::*;
use crate::entry::ProvenanceEntry;
use crate::seq_facts::{lemma_filter_push, lemma_take_all, lemma_take_succ};
use crate::tree::{
    lemma_nodes_view, lemma_nodes_view_push, nodes_view, spine_append, DecisionNode,
    DecisionTree, NodeModel,
};

verus! {

/// An append-only log of entries.
#[derive(Debug, Clone)]
pub struct ProvenanceChain {
    pub entries: Vec<ProvenanceEntry>,
    pub chain_id: String,
}

/// The entries behind a sequence of entry references.
pub open spec fn derefs(s: Seq<&ProvenanceEntry>) -> Seq<ProvenanceEntry> {
    s.map_values(|e: &ProvenanceEntry| *e)
}

/// Entries made by the agent `agent`.
pub open spec fn agent_is(agent: Seq<char>) -> spec_fn(ProvenanceEntry) -> bool {
    |e: ProvenanceEntry| e.agent_id@ == agent
}

/// Entries made in the room `room`.
pub open spec fn room_is(room: Seq<char>) -> spec_fn(ProvenanceEntry) -> bool {
    |e: ProvenanceEntry| e.room_id@ == room
}

/// Entries whose timestamp lies in `[start, end]`.
pub open spec fn time_within(start: u64, end: u64) -> spec_fn(ProvenanceEntry) -> bool {
    |e: ProvenanceEntry| start <= e.timestamp && e.timestamp <= end
}

/// The leaf that stands for a rejected alternative: confidence `0.0`, no children.
pub open spec fn alternative_leaf(a: String) -> NodeModel {
    NodeModel { decision: a@, confidence: 0, children: Seq::empty() }
}

/// The node for an entry: its decision and confidence, with one leaf per
/// alternative, in order.
pub open spec fn entry_node(e: ProvenanceEntry) -> NodeModel {
    NodeModel {
        decision: e.decision@,
        confidence: e.confidence,
        children: e.alternatives@.map_values(|a: String| alternative_leaf(a)),
    }
}

/// The tree built from the first `n` entries (`n >= 1`): the first entry's
/// node is the root, and each later entry's node is attached at the end of
/// the last-child spine. Every entry's node has its alternatives as leaf
/// children, the root's included.
pub open spec fn grow(entries: Seq<ProvenanceEntry>, n: nat) -> NodeModel
    decreases n,
{
    if n <= 1 {
        entry_node(entries[0])
    } else {
        spine_append(grow(entries, (n - 1) as nat), entry_node(entries[n - 1]))
    }
}

/// The decision tree of a chain; an empty chain gives a single node with an
/// empty decision and confidence `0.0`.
pub open spec fn tree_of(entries: Seq<ProvenanceEntry>) -> NodeModel {
    if entries.len() == 0 {
        NodeModel { decision: Seq::empty(), confidence: 0, children: Seq::empty() }
    } else {
        grow(entries, entries.len())
    }
}

impl ProvenanceChain {
    /// An empty chain with the given identifier.
    pub fn new(chain_id: &str) -> (c: Self)
        ensures
            c.entries@.len() == 0,
            c.chain_id@ == chain_id@,
    {
        ProvenanceChain { entries: Vec::new(), chain_id: chain_id.to_owned() }
    }

    /// Appends an entry; nothing already in the chain changes.
    pub fn push(&mut self, entry: ProvenanceEntry)
        ensures
            final(self).entries@ == old(self).entries@.push(entry),
            final(self).chain_id == old(self).chain_id,
    {
        self.entries.push(entry);
    }

    /// The most recent entry.
    pub fn last(&self) -> (r: Option<&ProvenanceEntry>)
        ensures
            r is None <==> self.entries@.len() == 0,
            r matches Some(e) ==> *e == self.entries@.last(),
    {
        if self.entries.len() == 0 {
            None
        } else {
            Some(&self.entries[self.entries.len() - 1])
        }
    }

    /// The entries made by `agent_id`, in chain order.
    pub fn by_agent(&self, agent_id: &str) -> (r: Vec<&ProvenanceEntry>)
        ensures
            derefs(r@) == self.entries@.filter(agent_is(agent_id@)),
    {
        let target = agent_id.to_owned();
        let mut r: Vec<&ProvenanceEntry> = Vec::new();
        let mut i: usize = 0;
        while i < self.entries.len()
            invariant
                i <= self.entries.len(),
                target@ == agent_id@,
                derefs(r@) == self.entries@.take(i as int).filter(agent_is(agent_id@)),
            decreases self.entries.len() - i,
        {
            let e = &self.entries[i];
            if e.agent_id == target {
                r.push(e);
            }
            proof {
                lemma_take_succ(self.entries@, i as int);
                lemma_filter_push(self.entries@.take(i as int), *e, agent_is(agent_id@));
                assert(derefs(r@) =~= self.entries@.take(i + 1).filter(agent_is(agent_id@)));
            }
            i = i + 1;
        }
        proof {
            lemma_take_all(self.entries@);
        }
        r
    }

    /// The entries made in `room_id`, in chain order.
    pub fn by_room(&self, room_id: &str) -> (r: Vec<&ProvenanceEntry>)
        ensures
            derefs(r@) == self.entries@.filter(room_is(room_id@)),
    {
        let target = room_id.to_owned();
        let mut r: Vec<&ProvenanceEntry> = Vec::new();
        let mut i: usize = 0;
        while i < self.entries.len()
            invariant
                i <= self.entries.len(),
                target@ == room_id@,
                derefs(r@) == self.entries@.take(i as int).filter(room_is(room_id@)),
            decreases self.entries.len() - i,
        {
            let e = &self.entries[i];
            if e.room_id == target {
                r.push(e);
            }
            proof {
                lemma_take_succ(self.entries@, i as int);
                lemma_filter_push(self.entries@.take(i as int), *e, room_is(room_id@));
                assert(derefs(r@) =~= self.entries@.take(i + 1).filter(room_is(room_id@)));
            }
            i = i + 1;
        }
        proof {
            lemma_take_all(self.entries@);
        }
        r
    }

    /// The entries whose timestamp lies in `[start, end]`, in chain order.
    pub fn by_time_range(&self, start: u64, end: u64) -> (r: Vec<&ProvenanceEntry>)
        ensures
            derefs(r@) == self.entries@.filter(time_within(start, end)),
    {
        let mut r: Vec<&ProvenanceEntry> = Vec::new();
        let mut i: usize = 0;
        while i < self.entries.len()
            invariant
                i <= self.entries.len(),
                derefs(r@) == self.entries@.take(i as int).filter(time_within(start, end)),
            decreases self.entries.len() - i,
        {
            let e = &self.entries[i];
            if e.timestamp >= start && e.timestamp <= end {
                r.push(e);
            }
            proof {
                lemma_take_succ(self.entries@, i as int);
                lemma_filter_push(self.entries@.take(i as int), *e, time_within(start, end));
                assert(derefs(r@) =~= self.entries@.take(i + 1).filter(time_within(start, end)));
            }
            i = i + 1;
        }
        proof {
            lemma_take_all(self.entries@);
        }
        r
    }

    /// The decision tree of the chain: every entry's node carries its
    /// alternatives as leaf children; the first entry's node is the root, and
    /// each later entry's node is attached at the end of the last-child spine.
    pub fn decision_tree(&self) -> (t: DecisionTree)
        ensures
            t@ == tree_of(self.entries@),
    {
        if self.entries.len() == 0 {
            let root = DecisionNode { decision: String::new(), confidence: 0, children: Vec::new() };
            proof {
                assert(nodes_view(root.children@) =~= Seq::<NodeModel>::empty());
            }
            return DecisionTree { root };
        }
        let mut root = Self::entry_decision_node(&self.entries[0]);
        let mut i: usize = 1;
        while i < self.entries.len()
            invariant
                1 <= i <= self.entries.len(),
                root@ == grow(self.entries@, i as nat),
            decreases self.entries.len() - i,
        {
            let node = Self::entry_decision_node(&self.entries[i]);
            Self::append_to_last(&mut root, node);
            i = i + 1;
        }
        DecisionTree { root }
    }

    /// The node of an entry: its decision and confidence, with one leaf of
    /// confidence `0.0` per alternative, in order.
    fn entry_decision_node(entry: &ProvenanceEntry) -> (node: DecisionNode)
        ensures
            node@ == entry_node(*entry),
    {
        let mut kids: Vec<DecisionNode> = Vec::new();
        let mut j: usize = 0;
        proof {
            assert(nodes_view(kids@) =~= entry.alternatives@.take(0).map_values(|a: String| alternative_leaf(a)));
        }
        while j < entry.alternatives.len()
            invariant
                j <= entry.alternatives.len(),
                nodes_view(kids@) == entry.alternatives@.take(j as int).map_values(
                    |a: String| alternative_leaf(a),
                ),
            decreases entry.alternatives.len() - j,
        {
            let leaf = DecisionNode {
                decision: entry.alternatives[j].clone(),
                confidence: 0,
                children: Vec::new(),
            };
            proof {
                assert(nodes_view(leaf.children@) =~= Seq::<NodeModel>::empty());
                lemma_nodes_view_push(kids@, leaf);
                lemma_take_succ(entry.alternatives@, j as int);
            }
            kids.push(leaf);
            assert(nodes_view(kids@) =~= entry.alternatives@.take(j + 1).map_values(
                |a: String| alternative_leaf(a),
            ));
            j = j + 1;
        }
        proof {
            lemma_take_all(entry.alternatives@);
        }
        let node = DecisionNode {
            decision: entry.decision.clone(),
            confidence: entry.confidence,
            children: kids,
        };
        assert(node@ == entry_node(*entry));
        node
    }

    fn append_to_last(node: &mut DecisionNode, child: DecisionNode)
        ensures
            final(node)@ == spine_append(old(node)@, child@),
        decreases *old(node),
    {
        proof {
            lemma_nodes_view(node.children@);
        }
        if node.children.len() == 0 {
            proof {
                lemma_nodes_view_push(node.children@, child);
            }
            node.children.push(child);
            assert(nodes_view(node.children@) =~= seq![child@]);
            assert(node@ == spine_append(old(node)@, child@));
        } else {
            let ghost kids = node.children@;
            let ghost l = kids.len() - 1;
            let mut last = node.children.pop().unwrap();
            proof {
                assert(kids == node.children@.push(last));
                lemma_nodes_view_push(node.children@, last);
                assert(decreases_to!(*old(node) => kids[l]));
            }
            if last.children.len() == 0 {
                proof {
                    lemma_nodes_view(last.children@);
                    lemma_nodes_view_push(last.children@, child);
                }
                last.children.push(child);
                assert(nodes_view(last.children@) =~= seq![child@]);
            } else {
                Self::append_to_last(&mut last, child);
            }
            assert(last@ == spine_append(kids[l]@, child@));
            assert(old(node)@.children[l] == kids[l]@);
            proof {
                lemma_nodes_view_push(node.children@, last);
            }
            node.children.push(last);
            assert(nodes_view(node.children@) =~= nodes_view(kids).update(l, last@));
            assert(node@ == spine_append(old(node)@, child@));
        }
    }
}

} // verus!
