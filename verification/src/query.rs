//! Composable filters over the entries of a chain.
use vstd::prelude::*;
use vstd::string::*;
use crate::chain::{derefs, ProvenanceChain};
use crate::entry::ProvenanceEntry;
use crate::float_bits::{f64_lt, lt_bits};
use crate::seq_facts::{lemma_filter_push, lemma_take_all, lemma_take_succ};
use crate::text::{contains_str, contains_text};

verus! {

/// A filter over entries; every field that is `None` admits every entry.
/// `min_confidence` holds an `f64` bit pattern.
#[derive(Debug, Clone)]
pub struct ProvenanceQuery {
    pub agent_id: Option<String>,
    pub room_id: Option<String>,
    pub time_range: Option<(u64, u64)>,
    pub min_confidence: Option<u64>,
    pub decision_contains: Option<String>,
    pub limit: Option<usize>,
}

/// The query that admits every entry and has no limit.
pub open spec fn is_match_all(q: ProvenanceQuery) -> bool {
    &&& q.agent_id is None
    &&& q.room_id is None
    &&& q.time_range is None
    &&& q.min_confidence is None
    &&& q.decision_contains is None
    &&& q.limit is None
}

impl Default for ProvenanceQuery {
    /// The query that matches everything.
    fn default() -> (q: Self)
        ensures
            is_match_all(q),
    {
        ProvenanceQuery {
            agent_id: None,
            room_id: None,
            time_range: None,
            min_confidence: None,
            decision_contains: None,
            limit: None,
        }
    }
}

/// Whether `e` passes every filter that `q` sets: same agent, same room,
/// timestamp within the inclusive range, confidence not below the minimum
/// (an entry is dropped only when its confidence compares `<` the minimum, so
/// NaNs pass), and decision text containing the given text.
pub open spec fn admits(q: ProvenanceQuery, e: ProvenanceEntry) -> bool {
    &&& (q.agent_id matches Some(a) ==> e.agent_id@ == a@)
    &&& (q.room_id matches Some(r) ==> e.room_id@ == r@)
    &&& (q.time_range matches Some(range) ==> range.0 <= e.timestamp && e.timestamp <= range.1)
    &&& (q.min_confidence matches Some(m) ==> !f64_lt(e.confidence, m))
    &&& (q.decision_contains matches Some(n) ==> contains_text(e.decision@, n@))
}

/// `admits` as a predicate on entries.
pub open spec fn admitted_by(q: ProvenanceQuery) -> spec_fn(ProvenanceEntry) -> bool {
    |e: ProvenanceEntry| admits(q, e)
}

/// `s` cut down to its first `limit` items when a limit is set.
pub open spec fn apply_limit<A>(s: Seq<A>, limit: Option<usize>) -> Seq<A> {
    match limit {
        Some(l) => if l < s.len() { s.take(l as int) } else { s },
        None => s,
    }
}

/// What a query returns on a list of entries: the admitted entries, in
/// order, cut down to the limit.
pub open spec fn query_entries(q: ProvenanceQuery, entries: Seq<ProvenanceEntry>) -> Seq<ProvenanceEntry> {
    apply_limit(entries.filter(admitted_by(q)), q.limit)
}

impl ProvenanceQuery {
    fn admits_entry(&self, e: &ProvenanceEntry) -> (b: bool)
        ensures
            b == admits(*self, *e),
    {
        match &self.agent_id {
            Some(agent) => {
                if e.agent_id != *agent {
                    return false;
                }
            },
            None => {},
        }
        match &self.room_id {
            Some(room) => {
                if e.room_id != *room {
                    return false;
                }
            },
            None => {},
        }
        match self.time_range {
            Some((start, end)) => {
                if e.timestamp < start || e.timestamp > end {
                    return false;
                }
            },
            None => {},
        }
        match self.min_confidence {
            Some(min_c) => {
                if lt_bits(e.confidence, min_c) {
                    return false;
                }
            },
            None => {},
        }
        match &self.decision_contains {
            Some(needle) => {
                if !contains_str(e.decision.as_str(), needle.as_str()) {
                    return false;
                }
            },
            None => {},
        }
        true
    }

    /// The entries of `chain` that the query admits, in chain order, at most
    /// `limit` of them.
    pub fn execute<'a>(&self, chain: &'a ProvenanceChain) -> (r: Vec<&'a ProvenanceEntry>)
        ensures
            derefs(r@) == query_entries(*self, chain.entries@),
    {
        let mut results: Vec<&ProvenanceEntry> = Vec::new();
        let mut i: usize = 0;
        while i < chain.entries.len()
            invariant
                i <= chain.entries.len(),
                derefs(results@) == chain.entries@.take(i as int).filter(admitted_by(*self)),
            decreases chain.entries.len() - i,
        {
            let e = &chain.entries[i];
            if self.admits_entry(e) {
                results.push(e);
            }
            proof {
                lemma_take_succ(chain.entries@, i as int);
                lemma_filter_push(chain.entries@.take(i as int), *e, admitted_by(*self));
                assert(derefs(results@) =~= chain.entries@.take(i + 1).filter(admitted_by(*self)));
            }
            i = i + 1;
        }
        proof {
            lemma_take_all(chain.entries@);
        }
        match self.limit {
            Some(limit) => {
                let ghost before = results@;
                results.truncate(limit);
                assert(derefs(results@) =~= apply_limit(derefs(before), self.limit));
            },
            None => {},
        }
        results
    }
}

} // verus!
