//! A single recorded decision.
use vstd::prelude::*;
use vstd::string::*;
use crate::float_bits::{f64_lt, lt_bits, seven_tenths, seven_tenths_bits};
use crate::text::{decimal, push_decimal};

verus! {

/// A single decision record.
///
/// `confidence`, `conservation_before` and `conservation_after` hold the
/// IEEE-754 bit patterns of the `f64` values (as `f64::to_bits` gives them).
#[derive(Debug, Clone)]
pub struct ProvenanceEntry {
    pub id: String,
    pub timestamp: u64,
    pub agent_id: String,
    pub decision: String,
    pub alternatives: Vec<String>,
    pub reasoning: String,
    pub confidence: u64,
    pub inputs: Vec<String>,
    pub outputs: Vec<String>,
    pub conservation_before: u64,
    pub conservation_after: u64,
    pub room_id: String,
    pub tile_id: Option<String>,
}

/// The identifier given to the entry created with sequence number `seq`: `pe-<seq>`.
pub open spec fn entry_id(seq: u64) -> Seq<char> {
    seq!['p', 'e', '-'] + decimal(seq as nat)
}

/// A freshly created entry: the given identity and time, every other field empty or zero.
pub open spec fn is_fresh_entry(
    e: ProvenanceEntry,
    agent_id: Seq<char>,
    decision: Seq<char>,
    seq: u64,
) -> bool {
    &&& e.id@ == entry_id(seq)
    &&& e.agent_id@ == agent_id
    &&& e.decision@ == decision
    &&& e.alternatives@.len() == 0
    &&& e.reasoning@.len() == 0
    &&& e.confidence == 0
    &&& e.inputs@.len() == 0
    &&& e.outputs@.len() == 0
    &&& e.conservation_before == 0
    &&& e.conservation_after == 0
    &&& e.room_id@.len() == 0
    &&& e.tile_id is None
}

#[verifier::external_type_specification]
#[verifier::external_body]
pub struct ExSystemTime(std::time::SystemTime);

#[verifier::external_type_specification]
#[verifier::external_body]
pub struct ExSystemTimeError(std::time::SystemTimeError);

/// The current reading of the system clock.
/// Trusted: wraps `SystemTime::now`; the reading depends on the clock, so
/// nothing is stated of it.
#[verifier::external_body]
fn system_now() -> std::time::SystemTime {
    std::time::SystemTime::now()
}

/// How long after the Unix epoch `t` lies, or an error when `t` is earlier.
/// Trusted: wraps `SystemTime::duration_since` with `UNIX_EPOCH`; both
/// values are opaque here, so nothing is stated of the result.
#[verifier::external_body]
fn since_unix_epoch(t: &std::time::SystemTime) -> std::result::Result<core::time::Duration, std::time::SystemTimeError> {
    t.duration_since(std::time::UNIX_EPOCH)
}

/// The whole seconds of a duration.
/// Trusted: wraps `Duration::as_secs`; a duration is opaque here, so nothing
/// is stated of the result.
#[verifier::external_body]
fn whole_seconds(d: &core::time::Duration) -> u64 {
    d.as_secs()
}

/// Seconds since the Unix epoch, or zero if the clock reads earlier than it.
fn unix_seconds_now() -> u64 {
    let now = system_now();
    match since_unix_epoch(&now) {
        Ok(d) => whole_seconds(&d),
        Err(_) => 0,
    }
}

impl ProvenanceEntry {
    /// Creates an entry with identifier `pe-<seq>`, stamped with the current time.
    /// `seq` is the next value of the caller's process-wide entry counter.
    pub fn new(agent_id: &str, decision: &str, seq: u64) -> (e: Self)
        ensures
            is_fresh_entry(e, agent_id@, decision@, seq),
    {
        let now = unix_seconds_now();
        Self::new_at(agent_id, decision, seq, now)
    }

    /// Creates an entry with identifier `pe-<seq>` and the given timestamp.
    pub fn new_at(agent_id: &str, decision: &str, seq: u64, timestamp: u64) -> (e: Self)
        ensures
            is_fresh_entry(e, agent_id@, decision@, seq),
            e.timestamp == timestamp,
    {
        let mut id = String::new();
        id.append("pe-");
        proof {
            reveal_strlit("pe-");
        }
        assert(id@ =~= seq!['p', 'e', '-']);
        push_decimal(&mut id, seq);
        ProvenanceEntry {
            id,
            timestamp,
            agent_id: agent_id.to_owned(),
            decision: decision.to_owned(),
            alternatives: Vec::new(),
            reasoning: String::new(),
            confidence: 0,
            inputs: Vec::new(),
            outputs: Vec::new(),
            conservation_before: 0,
            conservation_after: 0,
            room_id: String::new(),
            tile_id: None,
        }
    }

    /// Replaces the rejected alternatives.
    pub fn with_alternatives(&mut self, alts: Vec<String>)
        ensures
            *final(self) == (ProvenanceEntry { alternatives: alts, ..*old(self) }),
    {
        self.alternatives = alts;
    }

    /// Replaces the reasoning text.
    pub fn with_reasoning(&mut self, reasoning: &str)
        ensures
            final(self).reasoning@ == reasoning@,
            *final(self) == (ProvenanceEntry { reasoning: final(self).reasoning, ..*old(self) }),
    {
        self.reasoning = reasoning.to_owned();
    }

    /// Whether the confidence is strictly greater than 0.7.
    pub fn was_good_decision(&self) -> (b: bool)
        ensures
            b == f64_lt(seven_tenths_bits(), self.confidence),
    {
        lt_bits(seven_tenths(), self.confidence)
    }
}

} // verus!
