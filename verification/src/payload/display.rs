//! Text forms of checkpoints and spans, as shown in logs.

use crate::fmt::{decimal, push_decimal};
use crate::payload::checkpoint::{node_results, Checkpoint, NodeView};
use crate::payload::exec::{total_gas, ExecOutcome};
use crate::payload::span::{blob_gas_sum, span_gas, span_txs, Span};
use vstd::prelude::*;

verus! {

/// A context between double quotes.
pub open spec fn quoted(c: Seq<char>) -> Seq<char> {
    "\""@ + c + "\""@
}

/// The word for an outcome.
pub open spec fn outcome_word(o: ExecOutcome) -> Seq<char> {
    match o {
        ExecOutcome::Success { .. } => "success"@,
        ExecOutcome::Revert { .. } => "revert"@,
        ExecOutcome::Halt { .. } => "halt"@,
    }
}

/// The text of the last checkpoint of history `h`: its depth, and what it
/// applied.
pub open spec fn checkpoint_text(h: Seq<NodeView>) -> Seq<char> {
    let d = decimal((h.len() - 1) as nat);
    let n = h.last();
    match n.mutation {
        None => if h.len() == 1 {
            "["@ + d + "] initial"@
        } else {
            "["@ + d + "] barrier, context="@ + quoted(n.context)
        },
        Some((e, r)) => if !e.is_bundle {
            "["@ + d + "] tx "@ + decimal(e.hash as nat) + " ("@ + outcome_word(r[0]) + ", "@
                + decimal(total_gas(r) as nat) + " gas)"@
        } else {
            "["@ + d + "] (bundle "@ + decimal(e.txs.len()) + " txs, "@ + decimal(total_gas(r) as nat)
                + " gas) metadata="@ + quoted(n.context)
        },
    }
}

/// The text of a span: empty, or its first and last depths, its number of
/// transactions, its gas and its blob gas.
pub open spec fn span_text(s: Seq<Seq<NodeView>>) -> Seq<char> {
    if s.len() == 0 {
        "[empty]"@
    } else {
        "[checkpoints "@ + decimal((s[0].len() - 1) as nat) + "-"@ + decimal((s.last().len() - 1) as nat)
            + " / "@ + decimal(span_txs(s).len()) + " txs] ("@ + decimal(span_gas(s) as nat) + " gas, "@
            + decimal(blob_gas_sum(span_txs(s)) as nat) + " blob gas)"@
    }
}

proof fn lemma_total_gas_nonneg(s: Seq<ExecOutcome>)
    ensures
        total_gas(s) >= 0,
    decreases s.len(),
{
    if s.len() > 0 {
        lemma_total_gas_nonneg(s.drop_last());
    }
}

impl Checkpoint {
    /// The text of this checkpoint, such as `[3] tx 7 (success, 21000 gas)`.
    pub fn to_display_string(&self) -> (r: String)
        ensures
            r@ == checkpoint_text(self@),
    {
        self.note_valid();
        let depth = self.depth();
        let mut out = String::new();
        out.append("[");
        push_decimal(&mut out, depth as u128);
        match self.result() {
            None => {
                if depth == 0 {
                    out.append("] initial");
                } else {
                    out.append("] barrier, context=");
                    out.append("\"");
                    out.append(self.context());
                    out.append("\"");
                }
            },
            Some(res) => {
                let gas = res.gas_used();
                proof {
                    lemma_total_gas_nonneg(res.spec_results());
                }
                match res.source() {
                    crate::payload::exec::Executable::Transaction(t) => {
                        out.append("] tx ");
                        push_decimal(&mut out, t.hash as u128);
                        out.append(" (");
                        let word = match res.results()[0] {
                            ExecOutcome::Success { .. } => "success",
                            ExecOutcome::Revert { .. } => "revert",
                            ExecOutcome::Halt { .. } => "halt",
                        };
                        out.append(word);
                        out.append(", ");
                        push_decimal(&mut out, gas);
                        out.append(" gas)");
                    },
                    crate::payload::exec::Executable::Bundle(b) => {
                        out.append("] (bundle ");
                        push_decimal(&mut out, b.transactions.len() as u128);
                        out.append(" txs, ");
                        push_decimal(&mut out, gas);
                        out.append(" gas) metadata=");
                        out.append("\"");
                        out.append(self.context());
                        out.append("\"");
                    },
                }
            },
        }
        proof {
            assert(out@ =~= checkpoint_text(self@));
        }
        out
    }
}

impl Span {
    /// The text of this span, such as
    /// `[checkpoints 0-2 / 2 txs] (42000 gas, 0 blob gas)`.
    pub fn to_display_string(&self) -> (r: String)
        requires
            span_gas(self@) <= u128::MAX,
            blob_gas_sum(span_txs(self@)) <= u128::MAX,
        ensures
            r@ == span_text(self@),
    {
        let mut out = String::new();
        if self.is_empty() {
            out.append("[empty]");
            return out;
        }
        let first = self.first().unwrap();
        let last = self.last().unwrap();
        first.note_valid();
        last.note_valid();
        let n = self.transactions().len();
        let gas = self.gas_used();
        let blob = self.blob_gas_used();
        out.append("[checkpoints ");
        push_decimal(&mut out, first.depth() as u128);
        out.append("-");
        push_decimal(&mut out, last.depth() as u128);
        out.append(" / ");
        push_decimal(&mut out, n as u128);
        out.append(" txs] (");
        push_decimal(&mut out, gas);
        out.append(" gas, ");
        push_decimal(&mut out, blob);
        out.append(" blob gas)");
        proof {
            assert(out@ =~= span_text(self@));
        }
        out
    }
}

} // verus!
