//! Text exports of a chain (CSV, Mermaid flowchart) and the library's errors.
use vstd::prelude::*;
use vstd::string::*;
use crate::chain::ProvenanceChain;
use crate::entry::ProvenanceEntry;
use crate::text::{decimal, push_decimal, push_replaced, replace_char};

verus! {

/// Errors of the library.
#[derive(Debug, Clone)]
pub enum ProvenanceError {
    ChainNotFound(String),
    EntryTooLarge(usize),
    ParseError(String),
    StorageFull,
}

/// The message of an error.
pub open spec fn error_message(e: ProvenanceError) -> Seq<char> {
    match e {
        ProvenanceError::ChainNotFound(id) => "chain not found: "@ + id@,
        ProvenanceError::EntryTooLarge(size) => "entry too large: "@ + decimal(size as nat) + " bytes"@,
        ProvenanceError::ParseError(msg) => "parse error: "@ + msg@,
        ProvenanceError::StorageFull => "storage full"@,
    }
}

impl ProvenanceError {
    /// The human-readable message of the error.
    pub fn to_string(&self) -> (s: String)
        ensures
            s@ == error_message(*self),
    {
        let mut s = String::new();
        match self {
            ProvenanceError::ChainNotFound(id) => {
                s.append("chain not found: ");
                s.append(id.as_str());
            },
            ProvenanceError::EntryTooLarge(size) => {
                s.append("entry too large: ");
                push_decimal(&mut s, *size as u64);
                s.append(" bytes");
            },
            ProvenanceError::ParseError(msg) => {
                s.append("parse error: ");
                s.append(msg.as_str());
            },
            ProvenanceError::StorageFull => {
                s.append("storage full");
            },
        }
        assert(s@ =~= error_message(*self));
        s
    }
}

/// The renderings of an entry's three floating-point values, as `f64`'s
/// `Display` writes them.
#[derive(Debug, Clone)]
pub struct NumberTexts {
    pub confidence: String,
    pub conservation_before: String,
    pub conservation_after: String,
}

/// Exports of chains.
pub struct ProvenanceExporter;

/// The CSV header line.
pub open spec fn csv_header() -> Seq<char> {
    "id,timestamp,agent_id,decision,reasoning,confidence,conservation_before,conservation_after,room_id,tile_id\n"@
}

/// A free-text field with each comma written as a backslash and a comma.
pub open spec fn csv_text(s: Seq<char>) -> Seq<char> {
    replace_char(s, ',', "\\,"@)
}

/// The CSV line of one entry: its ten fields joined by commas.
pub open spec fn csv_row(e: ProvenanceEntry, n: NumberTexts) -> Seq<char> {
    e.id@ + ","@ + decimal(e.timestamp as nat) + ","@ + e.agent_id@ + ","@ + csv_text(e.decision@)
        + ","@ + csv_text(e.reasoning@) + ","@ + n.confidence@ + ","@ + n.conservation_before@
        + ","@ + n.conservation_after@ + ","@ + e.room_id@ + ","@ + (match e.tile_id {
        Some(t) => t@,
        None => Seq::empty(),
    }) + "\n"@
}

/// The CSV lines of the first `k` entries.
pub open spec fn csv_rows(entries: Seq<ProvenanceEntry>, numbers: Seq<NumberTexts>, k: nat) -> Seq<char>
    decreases k,
{
    if k == 0 {
        Seq::empty()
    } else {
        csv_rows(entries, numbers, (k - 1) as nat) + csv_row(entries[k - 1], numbers[k - 1])
    }
}

/// A node label of the flowchart: the decision with each `"` written as `\"`.
pub open spec fn mermaid_label(s: Seq<char>) -> Seq<char> {
    replace_char(s, '"', "\\\""@)
}

/// The flowchart lines of entry `i`: its node, and for every entry after
/// the first an edge from the entry before.
pub open spec fn mermaid_lines(i: nat, decision: Seq<char>) -> Seq<char> {
    "    N"@ + decimal(i) + "[\""@ + mermaid_label(decision) + "\"]\n"@ + (if i > 0 {
        "    N"@ + decimal((i - 1) as nat) + " --> N"@ + decimal(i) + "\n"@
    } else {
        Seq::empty()
    })
}

/// The flowchart lines of the first `k` entries.
pub open spec fn mermaid_body(entries: Seq<ProvenanceEntry>, k: nat) -> Seq<char>
    decreases k,
{
    if k == 0 {
        Seq::empty()
    } else {
        mermaid_body(entries, (k - 1) as nat) + mermaid_lines((k - 1) as nat, entries[k - 1].decision@)
    }
}

impl ProvenanceExporter {
    fn push_csv_row(out: &mut String, e: &ProvenanceEntry, n: &NumberTexts)
        ensures
            final(out)@ == old(out)@ + csv_row(*e, *n),
    {
        out.append(e.id.as_str());
        out.append(",");
        push_decimal(out, e.timestamp);
        out.append(",");
        out.append(e.agent_id.as_str());
        out.append(",");
        push_replaced(out, e.decision.as_str(), ',', "\\,");
        out.append(",");
        push_replaced(out, e.reasoning.as_str(), ',', "\\,");
        out.append(",");
        out.append(n.confidence.as_str());
        out.append(",");
        out.append(n.conservation_before.as_str());
        out.append(",");
        out.append(n.conservation_after.as_str());
        out.append(",");
        out.append(e.room_id.as_str());
        out.append(",");
        match &e.tile_id {
            Some(t) => {
                out.append(t.as_str());
            },
            None => {},
        }
        out.append("\n");
        proof {
            reveal_strlit(",");
            reveal_strlit("\\,");
            reveal_strlit("\n");
        }
        assert(out@ =~= old(out)@ + csv_row(*e, *n));
    }

    /// The chain as CSV: the header line, then one line per entry. The
    /// floating-point fields are written as given in `numbers`, one item per entry.
    pub fn to_csv(chain: &ProvenanceChain, numbers: &Vec<NumberTexts>) -> (csv: String)
        requires
            numbers@.len() == chain.entries@.len(),
        ensures
            csv@ == csv_header() + csv_rows(chain.entries@, numbers@, chain.entries@.len()),
    {
        let mut csv = String::new();
        csv.append(
            "id,timestamp,agent_id,decision,reasoning,confidence,conservation_before,conservation_after,room_id,tile_id\n",
        );
        assert(csv@ =~= csv_header());
        let mut i: usize = 0;
        while i < chain.entries.len()
            invariant
                i <= chain.entries.len(),
                numbers@.len() == chain.entries@.len(),
                csv@ == csv_header() + csv_rows(chain.entries@, numbers@, i as nat),
            decreases chain.entries.len() - i,
        {
            Self::push_csv_row(&mut csv, &chain.entries[i], &numbers[i]);
            assert(csv@ =~= csv_header() + csv_rows(chain.entries@, numbers@, (i + 1) as nat));
            i = i + 1;
        }
        csv
    }

    /// The chain as a Mermaid `graph TD` flowchart: a node `N<i>` per entry,
    /// labelled with its decision, and an edge from each entry to the next.
    pub fn to_mermaid(chain: &ProvenanceChain) -> (out: String)
        ensures
            out@ == "graph TD\n"@ + mermaid_body(chain.entries@, chain.entries@.len()),
    {
        let mut out = String::new();
        out.append("graph TD\n");
        assert(out@ =~= "graph TD\n"@);
        if chain.entries.len() == 0 {
            assert(out@ =~= "graph TD\n"@ + mermaid_body(chain.entries@, 0));
            return out;
        }
        let mut i: usize = 0;
        while i < chain.entries.len()
            invariant
                i <= chain.entries.len(),
                out@ == "graph TD\n"@ + mermaid_body(chain.entries@, i as nat),
            decreases chain.entries.len() - i,
        {
            let ghost before = out@;
            out.append("    N");
            push_decimal(&mut out, i as u64);
            out.append("[\"");
            push_replaced(&mut out, chain.entries[i].decision.as_str(), '"', "\\\"");
            out.append("\"]\n");
            if i > 0 {
                out.append("    N");
                push_decimal(&mut out, (i - 1) as u64);
                out.append(" --> N");
                push_decimal(&mut out, i as u64);
                out.append("\n");
            }
            assert(out@ =~= before + mermaid_lines(i as nat, chain.entries@[i as int].decision@));
            assert(out@ =~= "graph TD\n"@ + mermaid_body(chain.entries@, (i + 1) as nat));
            i = i + 1;
        }
        out
    }
}

} // verus!
