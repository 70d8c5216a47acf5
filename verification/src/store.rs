//! A store of chains keyed by agent and room, with per-chain eviction of the
//! oldest entries, queries across chains and audits.
use vstd::prelude::*;
use vstd::relations::{sorted_by, total_ordering};
use vstd::string::*;
use crate::chain::{derefs, ProvenanceChain};
use crate::entry::ProvenanceEntry;
use crate::query::{apply_limit, query_entries, ProvenanceQuery};
use crate::seq_facts::{lemma_take_all, lemma_take_succ};

verus! {

/// One chain of the store with the key it is filed under.
#[derive(Debug, Clone)]
pub struct ChainSlot {
    pub key: String,
    pub chain: ProvenanceChain,
}

/// Chains keyed by `<agent_id>-<room_id>`, in the order their keys were
/// first recorded; no key occurs twice (see `wf`).
pub struct ProvenanceStore {
    pub chains: Vec<ChainSlot>,
    pub max_entries_per_chain: usize,
}

/// The key under which an entry is filed: `<agent_id>-<room_id>`.
pub open spec fn chain_key(agent_id: Seq<char>, room_id: Seq<char>) -> Seq<char> {
    agent_id + seq!['-'] + room_id
}

/// The identifier of a chain created for `agent_id`: `chain-<agent_id>`.
pub open spec fn new_chain_id(agent_id: Seq<char>) -> Seq<char> {
    seq!['c', 'h', 'a', 'i', 'n', '-'] + agent_id
}

/// No two slots share a key.
pub open spec fn keys_unique(slots: Seq<ChainSlot>) -> bool {
    forall|i: int, j: int|
        0 <= i < slots.len() && 0 <= j < slots.len() && i != j ==> slots[i].key@ != slots[j].key@
}

/// Some slot has the key.
pub open spec fn has_key(slots: Seq<ChainSlot>, key: Seq<char>) -> bool {
    exists|i: int| 0 <= i < slots.len() && slots[i].key@ == key
}

/// `i` is the first slot with the key.
pub open spec fn is_first_key_index(slots: Seq<ChainSlot>, key: Seq<char>, i: int) -> bool {
    &&& 0 <= i < slots.len()
    &&& slots[i].key@ == key
    &&& forall|j: int| 0 <= j < i ==> #[trigger] slots[j].key@ != key
}

/// The index of the first slot with the key, or -1 when there is none.
pub open spec fn first_key_index(slots: Seq<ChainSlot>, key: Seq<char>) -> int {
    if has_key(slots, key) {
        choose|i: int| is_first_key_index(slots, key, i)
    } else {
        -1
    }
}

/// When some slot has the key, `first_key_index` is the first such slot.
pub proof fn lemma_first_key_index(slots: Seq<ChainSlot>, key: Seq<char>)
    ensures
        has_key(slots, key) ==> is_first_key_index(slots, key, first_key_index(slots, key)),
        !has_key(slots, key) ==> first_key_index(slots, key) == -1,
{
    if has_key(slots, key) {
        let w = choose|i: int| 0 <= i < slots.len() && slots[i].key@ == key;
        lemma_first_from(slots, key, w);
    }
}

proof fn lemma_first_from(slots: Seq<ChainSlot>, key: Seq<char>, w: int)
    requires
        0 <= w < slots.len(),
        slots[w].key@ == key,
    ensures
        exists|i: int| is_first_key_index(slots, key, i),
    decreases w,
{
    if exists|j: int| 0 <= j < w && slots[j].key@ == key {
        let j = choose|j: int| 0 <= j < w && slots[j].key@ == key;
        lemma_first_from(slots, key, j);
    } else {
        assert(is_first_key_index(slots, key, w));
    }
}

/// The chain filed under `key` (the first slot with that key), if any.
pub open spec fn chain_for(slots: Seq<ChainSlot>, key: Seq<char>) -> Option<ProvenanceChain> {
    if has_key(slots, key) {
        Some(slots[first_key_index(slots, key)].chain)
    } else {
        None
    }
}

/// The newest `max` items of `s` (all of `s` when it is no longer than `max`).
pub open spec fn keep_newest(s: Seq<ProvenanceEntry>, max: nat) -> Seq<ProvenanceEntry> {
    if s.len() > max { s.skip(s.len() - max) } else { s }
}

/// `new` is `old` after filing `entry` under its key with at most `max`
/// entries kept: the (first) chain with that key gets the entry appended and
/// its oldest entries dropped; otherwise a new chain `chain-<agent_id>` is
/// added last.
pub open spec fn recorded(
    old: Seq<ChainSlot>,
    new: Seq<ChainSlot>,
    entry: ProvenanceEntry,
    max: nat,
) -> bool {
    let key = chain_key(entry.agent_id@, entry.room_id@);
    if has_key(old, key) {
        &&& new.len() == old.len()
        &&& forall|i: int|
            0 <= i < old.len() ==> if i == first_key_index(old, key) {
                &&& new[i].key == old[i].key
                &&& new[i].chain.chain_id == old[i].chain.chain_id
                &&& new[i].chain.entries@ == keep_newest(old[i].chain.entries@.push(entry), max)
            } else {
                new[i] == old[i]
            }
    } else {
        &&& new.len() == old.len() + 1
        &&& forall|i: int| 0 <= i < old.len() ==> new[i] == old[i]
        &&& new[old.len() as int].key@ == key
        &&& new[old.len() as int].chain.chain_id@ == new_chain_id(entry.agent_id@)
        &&& new[old.len() as int].chain.entries@ == keep_newest(seq![entry], max)
    }
}

/// The concatenation, chain by chain in store order, of `f` applied to each
/// chain's entries.
pub open spec fn gather(
    slots: Seq<ChainSlot>,
    f: spec_fn(Seq<ProvenanceEntry>) -> Seq<ProvenanceEntry>,
) -> Seq<ProvenanceEntry>
    decreases slots.len(),
{
    if slots.len() == 0 {
        Seq::empty()
    } else {
        gather(slots.drop_last(), f) + f(slots.last().chain.entries@)
    }
}

/// A list of entries, unchanged.
pub open spec fn every_entry() -> spec_fn(Seq<ProvenanceEntry>) -> Seq<ProvenanceEntry> {
    |es: Seq<ProvenanceEntry>| es
}

/// All entries of the store, chain by chain in store order.
pub open spec fn all_entries(slots: Seq<ChainSlot>) -> Seq<ProvenanceEntry> {
    gather(slots, every_entry())
}

/// A query applied to one chain's entries.
pub open spec fn query_fn(q: ProvenanceQuery) -> spec_fn(Seq<ProvenanceEntry>) -> Seq<ProvenanceEntry> {
    |es: Seq<ProvenanceEntry>| query_entries(q, es)
}

/// What a query returns on a store: each chain's query results, chain by
/// chain, cut down to the limit once more.
pub open spec fn store_query(slots: Seq<ChainSlot>, q: ProvenanceQuery) -> Seq<ProvenanceEntry> {
    apply_limit(gather(slots, query_fn(q)), q.limit)
}

/// The entries of one agent, chain by chain.
pub open spec fn of_agent(agent: Seq<char>) -> spec_fn(Seq<ProvenanceEntry>) -> Seq<ProvenanceEntry> {
    |es: Seq<ProvenanceEntry>| es.filter(crate::chain::agent_is(agent))
}

/// The entries made in one room, chain by chain.
pub open spec fn of_room(room: Seq<char>) -> spec_fn(Seq<ProvenanceEntry>) -> Seq<ProvenanceEntry> {
    |es: Seq<ProvenanceEntry>| es.filter(crate::chain::room_is(room))
}

/// The texts of a list of strings.
pub open spec fn texts(v: Seq<String>) -> Seq<Seq<char>> {
    v.map_values(|s: String| s@)
}

/// The items of `s` without repeats, each where it first occurs.
pub open spec fn distinct_in_order(s: Seq<Seq<char>>) -> Seq<Seq<char>>
    decreases s.len(),
{
    if s.len() == 0 {
        Seq::empty()
    } else {
        let d = distinct_in_order(s.drop_last());
        if d.contains(s.last()) { d } else { d.push(s.last()) }
    }
}

/// The usual order on `u64`.
pub open spec fn u64_leq() -> spec_fn(u64, u64) -> bool {
    |a: u64, b: u64| a <= b
}

/// The pairs of neighbours in `t` that lie more than an hour (3600 seconds)
/// apart, in order.
pub open spec fn gap_pairs(t: Seq<u64>) -> Seq<(u64, u64)>
    decreases t.len(),
{
    if t.len() < 2 {
        Seq::empty()
    } else {
        let a = t[t.len() - 2];
        let b = t[t.len() - 1];
        gap_pairs(t.drop_last()) + (if b - a > 3600 { seq![(a, b)] } else { Seq::empty() })
    }
}


/// The agent of an entry.
pub open spec fn agent_of() -> spec_fn(ProvenanceEntry) -> Seq<char> {
    |e: ProvenanceEntry| e.agent_id@
}

/// The room of an entry.
pub open spec fn room_of() -> spec_fn(ProvenanceEntry) -> Seq<char> {
    |e: ProvenanceEntry| e.room_id@
}

/// The confidence pattern of an entry.
pub open spec fn confidence_of() -> spec_fn(ProvenanceEntry) -> u64 {
    |e: ProvenanceEntry| e.confidence
}

/// The timestamp of an entry.
pub open spec fn timestamp_of() -> spec_fn(ProvenanceEntry) -> u64 {
    |e: ProvenanceEntry| e.timestamp
}

/// The audit of a store with the given slots: entry and chain counts, the
/// distinct agents and rooms in first-seen order, every confidence, and the
/// gaps of more than an hour between neighbouring timestamps once all
/// timestamps are sorted.
pub open spec fn is_audit_of(a: ProvenanceAudit, slots: Seq<ChainSlot>) -> bool {
    let es = all_entries(slots);
    &&& a.total_entries == es.len()
    &&& a.total_chains == slots.len()
    &&& texts(a.agents_seen@) == distinct_in_order(es.map_values(agent_of()))
    &&& texts(a.rooms_seen@) == distinct_in_order(es.map_values(room_of()))
    &&& a.confidence_distribution@ == es.map_values(confidence_of())
    &&& a.gaps@ == gap_pairs(es.map_values(timestamp_of()).sort_by(u64_leq()))
}

/// A summary of the store.
///
/// `confidence_distribution` holds `f64` bit patterns. The aggregate
/// conservation change is a floating-point sum and is not computed here.
#[derive(Debug, Clone)]
pub struct ProvenanceAudit {
    pub total_entries: usize,
    pub total_chains: usize,
    pub agents_seen: Vec<String>,
    pub rooms_seen: Vec<String>,
    pub confidence_distribution: Vec<u64>,
    pub gaps: Vec<(u64, u64)>,
}

impl ProvenanceAudit {
    /// Whether no gap was found.
    pub fn is_continuous(&self) -> (b: bool)
        ensures
            b == (self.gaps@.len() == 0),
    {
        self.gaps.len() == 0
    }
}

/// The values of `v` in ascending order (insertion sort).
fn sorted_ascending(v: &Vec<u64>) -> (r: Vec<u64>)
    ensures
        sorted_by(r@, u64_leq()),
        r@.to_multiset() == v@.to_multiset(),
{
    broadcast use vstd::seq_lib::group_to_multiset_ensures;

    let mut out: Vec<u64> = Vec::new();
    let mut k: usize = 0;
    proof {
        assert(v@.take(0) =~= Seq::<u64>::empty());
    }
    while k < v.len()
        invariant
            k <= v.len(),
            sorted_by(out@, u64_leq()),
            out@.to_multiset() == v@.take(k as int).to_multiset(),
        decreases v.len() - k,
    {
        let x = v[k];
        let mut j: usize = 0;
        while j < out.len() && out[j] <= x
            invariant
                j <= out.len(),
                forall|m: int| 0 <= m < j ==> out@[m] <= x,
            decreases out.len() - j,
        {
            j = j + 1;
        }
        let ghost before = out@;
        out.insert(j, x);
        proof {
            assert forall|a: int, b: int| 0 <= a < b < out@.len() implies #[trigger] u64_leq()(out@[a], out@[b]) by {
                if b < j {
                    assert(u64_leq()(before[a], before[b]));
                } else if b == j {
                    assert(before[a] <= x);
                } else if a < j {
                    assert(before[a] <= x);
                    assert(u64_leq()(before[a], before[b - 1]));
                } else if a == j {
                    assert(j < before.len() && !(before[j as int] <= x));
                    if b - 1 > j {
                        assert(u64_leq()(before[j as int], before[b - 1]));
                    }
                } else {
                    assert(u64_leq()(before[a - 1], before[b - 1]));
                }
            }
            lemma_take_succ(v@, k as int);
            vstd::seq_lib::to_multiset_insert(before, j as int, x);
            vstd::seq_lib::to_multiset_build(v@.take(k as int), x);
            assert(out@.to_multiset() == v@.take(k + 1).to_multiset());
        }
        k = k + 1;
    }
    proof {
        lemma_take_all(v@);
    }
    out
}

/// Whether a list of strings holds the text `s`.
fn holds_text(v: &Vec<String>, s: &String) -> (b: bool)
    ensures
        b == texts(v@).contains(s@),
{
    let mut i: usize = 0;
    while i < v.len()
        invariant
            i <= v.len(),
            forall|k: int| 0 <= k < i ==> v@[k]@ != s@,
        decreases v.len() - i,
    {
        if v[i] == *s {
            assert(texts(v@)[i as int] == s@);
            return true;
        }
        i = i + 1;
    }
    assert(!texts(v@).contains(s@)) by {
        if texts(v@).contains(s@) {
            let k = choose|k: int| 0 <= k < texts(v@).len() && texts(v@)[k] == s@;
            assert(v@[k]@ == s@);
        }
    }
    false
}

/// Adds `s` to a list of distinct texts unless it is already there.
fn note_distinct(v: &mut Vec<String>, s: &String)
    ensures
        texts(final(v)@) == (if texts(old(v)@).contains(s@) { texts(old(v)@) } else {
            texts(old(v)@).push(s@)
        }),
{
    if !holds_text(v, s) {
        v.push(s.clone());
        assert(texts(v@) =~= texts(old(v)@).push(s@));
    }
}

/// Mapping over a sequence extended by one item.
proof fn lemma_map_push<A, B>(s: Seq<A>, x: A, f: spec_fn(A) -> B)
    ensures
        s.push(x).map_values(f) == s.map_values(f).push(f(x)),
{
    assert(s.push(x).map_values(f) =~= s.map_values(f).push(f(x)));
}

/// `distinct_in_order` of a sequence extended by one item.
proof fn lemma_distinct_push(s: Seq<Seq<char>>, x: Seq<char>)
    ensures
        distinct_in_order(s.push(x)) == (if distinct_in_order(s).contains(x) {
            distinct_in_order(s)
        } else {
            distinct_in_order(s).push(x)
        }),
{
    assert(s.push(x).drop_last() =~= s);
}

/// `gather` over a prefix extended by one slot.
proof fn lemma_gather_step(
    slots: Seq<ChainSlot>,
    i: int,
    f: spec_fn(Seq<ProvenanceEntry>) -> Seq<ProvenanceEntry>,
)
    requires
        0 <= i < slots.len(),
    ensures
        gather(slots.take(i + 1), f) == gather(slots.take(i), f) + f(slots[i].chain.entries@),
{
    assert(slots.take(i + 1).drop_last() =~= slots.take(i));
}

/// References to entries, concatenated.
proof fn lemma_derefs_add(a: Seq<&ProvenanceEntry>, b: Seq<&ProvenanceEntry>)
    ensures
        derefs(a + b) == derefs(a) + derefs(b),
{
    assert(derefs(a + b) =~= derefs(a) + derefs(b));
}

impl ProvenanceStore {
    /// Keys are unique.
    pub open spec fn wf(&self) -> bool {
        keys_unique(self.chains@)
    }

    /// An empty store that keeps at most `max_entries_per_chain` entries per chain.
    pub fn new(max_entries_per_chain: usize) -> (s: Self)
        ensures
            s.wf(),
            s.chains@.len() == 0,
            s.max_entries_per_chain == max_entries_per_chain,
    {
        ProvenanceStore { chains: Vec::new(), max_entries_per_chain }
    }

    fn default_chain_key(entry: &ProvenanceEntry) -> (k: String)
        ensures
            k@ == chain_key(entry.agent_id@, entry.room_id@),
    {
        let mut k = String::new();
        k.append(entry.agent_id.as_str());
        k.append("-");
        proof {
            reveal_strlit("-");
        }
        k.append(entry.room_id.as_str());
        assert(k@ =~= chain_key(entry.agent_id@, entry.room_id@));
        k
    }

    fn slot_index(&self, key: &str) -> (r: Option<usize>)
        ensures
            match r {
                Some(i) => is_first_key_index(self.chains@, key@, i as int),
                None => !has_key(self.chains@, key@),
            },
    {
        let target = key.to_owned();
        let mut i: usize = 0;
        while i < self.chains.len()
            invariant
                i <= self.chains.len(),
                target@ == key@,
                forall|k: int| 0 <= k < i ==> self.chains@[k].key@ != key@,
            decreases self.chains.len() - i,
        {
            if self.chains[i].key == target {
                return Some(i);
            }
            i = i + 1;
        }
        None
    }

    fn push_evicting(chain: &mut ProvenanceChain, entry: ProvenanceEntry, max: usize)
        ensures
            final(chain).chain_id == old(chain).chain_id,
            final(chain).entries@ == keep_newest(old(chain).entries@.push(entry), max as nat),
    {
        let ghost full = old(chain).entries@.push(entry);
        chain.push(entry);
        while chain.entries.len() > max
            invariant
                chain.chain_id == old(chain).chain_id,
                chain.entries@.len() <= full.len(),
                chain.entries@ == full.skip(full.len() - chain.entries@.len()),
                full.len() > max ==> chain.entries@.len() >= max,
                full.len() <= max ==> chain.entries@ == full,
            decreases chain.entries.len(),
        {
            chain.entries.remove(0);
            assert(chain.entries@ =~= full.skip(full.len() - chain.entries@.len()));
        }
        assert(full.skip(0) =~= full);
    }

    /// Files `entry` under `<agent_id>-<room_id>`, creating the chain
    /// `chain-<agent_id>` when the key is new, then drops that chain's oldest
    /// entries until at most `max_entries_per_chain` remain.
    pub fn record(&mut self, entry: ProvenanceEntry)
        ensures
            old(self).wf() ==> final(self).wf(),
            final(self).max_entries_per_chain == old(self).max_entries_per_chain,
            recorded(old(self).chains@, final(self).chains@, entry, old(self).max_entries_per_chain as nat),
    {
        let key = Self::default_chain_key(&entry);
        let max = self.max_entries_per_chain;
        match self.slot_index(key.as_str()) {
            Some(i) => {
                proof {
                    lemma_first_key_index(self.chains@, key@);
                }
                Self::push_evicting(&mut self.chains[i].chain, entry, max);
            },
            None => {
                let mut chain_id = String::new();
                chain_id.append("chain-");
                proof {
                    reveal_strlit("chain-");
                }
                chain_id.append(entry.agent_id.as_str());
                assert(chain_id@ =~= new_chain_id(entry.agent_id@));
                let mut chain = ProvenanceChain::new(chain_id.as_str());
                assert(chain.entries@.push(entry) =~= seq![entry]);
                Self::push_evicting(&mut chain, entry, max);
                self.chains.push(ChainSlot { key, chain });
            },
        }
    }

    /// The chain filed under `chain_id`, if any.
    pub fn get_chain(&self, chain_id: &str) -> (r: Option<&ProvenanceChain>)
        ensures
            match r {
                Some(c) => chain_for(self.chains@, chain_id@) == Some(*c),
                None => chain_for(self.chains@, chain_id@) is None,
            },
    {
        match self.slot_index(chain_id) {
            Some(i) => {
                proof {
                    lemma_first_key_index(self.chains@, chain_id@);
                }
                Some(&self.chains[i].chain)
            },
            None => None,
        }
    }

    /// The results of `query` on every chain, chain by chain in store order,
    /// cut down to the query's limit.
    pub fn query<'a>(&'a self, query: &ProvenanceQuery) -> (r: Vec<&'a ProvenanceEntry>)
        ensures
            derefs(r@) == store_query(self.chains@, *query),
    {
        let mut results: Vec<&ProvenanceEntry> = Vec::new();
        let mut i: usize = 0;
        while i < self.chains.len()
            invariant
                i <= self.chains.len(),
                derefs(results@) == gather(self.chains@.take(i as int), query_fn(*query)),
            decreases self.chains.len() - i,
        {
            let mut part = query.execute(&self.chains[i].chain);
            let ghost before = results@;
            let ghost got = part@;
            results.append(&mut part);
            proof {
                lemma_derefs_add(before, got);
                lemma_gather_step(self.chains@, i as int, query_fn(*query));
            }
            i = i + 1;
        }
        proof {
            lemma_take_all(self.chains@);
        }
        match query.limit {
            Some(limit) => {
                let ghost before = results@;
                results.truncate(limit);
                assert(derefs(results@) =~= apply_limit(derefs(before), query.limit));
            },
            None => {},
        }
        results
    }

    /// Every entry made by `agent_id`, chain by chain in store order.
    pub fn agent_history<'a>(&'a self, agent_id: &str) -> (r: Vec<&'a ProvenanceEntry>)
        ensures
            derefs(r@) == gather(self.chains@, of_agent(agent_id@)),
    {
        let q = ProvenanceQuery {
            agent_id: Some(agent_id.to_owned()),
            room_id: None,
            time_range: None,
            min_confidence: None,
            decision_contains: None,
            limit: None,
        };
        let r = self.query(&q);
        proof {
            assert(query_fn(q) =~= of_agent(agent_id@)) by {
                assert forall|es: Seq<ProvenanceEntry>| #[trigger] query_fn(q)(es) == of_agent(agent_id@)(es) by {
                    assert(crate::query::admitted_by(q) =~= crate::chain::agent_is(agent_id@));
                }
            }
        }
        r
    }

    /// Every entry made in `room_id`, chain by chain in store order.
    pub fn room_history<'a>(&'a self, room_id: &str) -> (r: Vec<&'a ProvenanceEntry>)
        ensures
            derefs(r@) == gather(self.chains@, of_room(room_id@)),
    {
        let q = ProvenanceQuery {
            agent_id: None,
            room_id: Some(room_id.to_owned()),
            time_range: None,
            min_confidence: None,
            decision_contains: None,
            limit: None,
        };
        let r = self.query(&q);
        proof {
            assert(query_fn(q) =~= of_room(room_id@)) by {
                assert forall|es: Seq<ProvenanceEntry>| #[trigger] query_fn(q)(es) == of_room(room_id@)(es) by {
                    assert(crate::query::admitted_by(q) =~= crate::chain::room_is(room_id@));
                }
            }
        }
        r
    }

    /// A summary of the store; see `is_audit_of`.
    pub fn audit(&self) -> (a: ProvenanceAudit)
        ensures
            is_audit_of(a, self.chains@),
    {
        let mut agents: Vec<String> = Vec::new();
        let mut rooms: Vec<String> = Vec::new();
        let mut confidences: Vec<u64> = Vec::new();
        let mut timestamps: Vec<u64> = Vec::new();
        let ghost mut seen: Seq<ProvenanceEntry> = Seq::empty();
        proof {
            assert(texts(agents@) =~= Seq::<Seq<char>>::empty());
            assert(texts(rooms@) =~= Seq::<Seq<char>>::empty());
            assert(seen.map_values(agent_of()) =~= Seq::<Seq<char>>::empty());
            assert(seen.map_values(room_of()) =~= Seq::<Seq<char>>::empty());
            assert(seen.map_values(confidence_of()) =~= Seq::<u64>::empty());
            assert(seen.map_values(timestamp_of()) =~= Seq::<u64>::empty());
            assert(self.chains@.take(0) =~= Seq::<ChainSlot>::empty());
        }
        let mut i: usize = 0;
        while i < self.chains.len()
            invariant
                i <= self.chains.len(),
                seen == all_entries(self.chains@.take(i as int)),
                texts(agents@) == distinct_in_order(seen.map_values(agent_of())),
                texts(rooms@) == distinct_in_order(seen.map_values(room_of())),
                confidences@ == seen.map_values(confidence_of()),
                timestamps@ == seen.map_values(timestamp_of()),
            decreases self.chains.len() - i,
        {
            let chain = &self.chains[i].chain;
            let ghost base = seen;
            let mut j: usize = 0;
            proof {
                assert(chain.entries@.take(0) =~= Seq::<ProvenanceEntry>::empty());
                assert(base + chain.entries@.take(0) =~= base);
            }
            while j < chain.entries.len()
                invariant
                    j <= chain.entries.len(),
                    seen == base + chain.entries@.take(j as int),
                    texts(agents@) == distinct_in_order(seen.map_values(agent_of())),
                    texts(rooms@) == distinct_in_order(seen.map_values(room_of())),
                    confidences@ == seen.map_values(confidence_of()),
                    timestamps@ == seen.map_values(timestamp_of()),
                decreases chain.entries.len() - j,
            {
                let e = &chain.entries[j];
                note_distinct(&mut agents, &e.agent_id);
                note_distinct(&mut rooms, &e.room_id);
                confidences.push(e.confidence);
                timestamps.push(e.timestamp);
                proof {
                    lemma_map_push(seen, *e, agent_of());
                    lemma_map_push(seen, *e, room_of());
                    lemma_map_push(seen, *e, confidence_of());
                    lemma_map_push(seen, *e, timestamp_of());
                    lemma_distinct_push(seen.map_values(agent_of()), e.agent_id@);
                    lemma_distinct_push(seen.map_values(room_of()), e.room_id@);
                    lemma_take_succ(chain.entries@, j as int);
                    assert(base + chain.entries@.take(j + 1) =~= (base + chain.entries@.take(j as int)).push(*e));
                    seen = seen.push(*e);
                }
                j = j + 1;
            }
            proof {
                lemma_take_all(chain.entries@);
                lemma_gather_step(self.chains@, i as int, every_entry());
            }
            i = i + 1;
        }
        proof {
            lemma_take_all(self.chains@);
        }
        let total_entries = timestamps.len();
        let sorted = sorted_ascending(&timestamps);
        proof {
            assert(total_ordering(u64_leq()));
            timestamps@.lemma_sort_by_ensures(u64_leq());
            vstd::seq_lib::lemma_sorted_unique(sorted@, timestamps@.sort_by(u64_leq()), u64_leq());
        }
        let gaps = Self::gaps_between(&sorted);
        ProvenanceAudit {
            total_entries,
            total_chains: self.chains.len(),
            agents_seen: agents,
            rooms_seen: rooms,
            confidence_distribution: confidences,
            gaps,
        }
    }

    fn gaps_between(ts: &Vec<u64>) -> (gaps: Vec<(u64, u64)>)
        requires
            sorted_by(ts@, u64_leq()),
        ensures
            gaps@ == gap_pairs(ts@),
    {
        let mut gaps: Vec<(u64, u64)> = Vec::new();
        let n = ts.len();
        if n < 2 {
            return gaps;
        }
        let mut k: usize = 1;
        proof {
            assert(ts@.take(1).len() == 1);
        }
        while k < n
            invariant
                n == ts.len(),
                1 <= k <= n,
                sorted_by(ts@, u64_leq()),
                gaps@ == gap_pairs(ts@.take(k as int)),
            decreases n - k,
        {
            let a = ts[k - 1];
            let b = ts[k];
            assert(u64_leq()(ts@[k - 1], ts@[k as int]));
            if b - a > 3600 {
                gaps.push((a, b));
            }
            proof {
                assert(ts@.take(k + 1).drop_last() =~= ts@.take(k as int));
                assert(gaps@ =~= gap_pairs(ts@.take(k + 1)));
            }
            k = k + 1;
        }
        proof {
            lemma_take_all(ts@);
        }
        gaps
    }

}

} // verus!
