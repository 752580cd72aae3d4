//! Records of strategy decisions, as kept in the append-only `decisions.jsonl`
//! log, and the names used to summarize them.
use vstd::prelude::*;
use crate::decimal::Dec;
use crate::strategy::Decision;
use crate::types::{now_utc, Timestamp};

verus! {

/// File name (within the state directory) of the append-only decisions log.
pub const DECISIONS_LOG_FILE: &'static str = "decisions.jsonl";

/// One decision, when it was taken and the annualized funding that drove it.
#[derive(Debug)]
pub struct DecisionRecord {
    pub decided_at: Timestamp,
    pub signal_apy: Dec,
    pub decision: Decision,
}

impl DecisionRecord {
    /// A record of `decision` taken now.
    pub fn new(signal_apy: Dec, decision: Decision) -> (r: DecisionRecord)
        ensures
            r.signal_apy == signal_apy,
            r.decision == decision,
    {
        DecisionRecord { decided_at: now_utc(), signal_apy, decision }
    }

    /// A record of `decision` taken at `decided_at`.
    pub fn new_at(decided_at: Timestamp, signal_apy: Dec, decision: Decision) -> (r: DecisionRecord)
        ensures
            r == (DecisionRecord { decided_at, signal_apy, decision }),
    {
        DecisionRecord { decided_at, signal_apy, decision }
    }
}

/// Name of the decision's kind: `open`, `close` or `hold`.
pub open spec fn spec_kind_name(d: Decision) -> Seq<char> {
    match d {
        Decision::Open { .. } => "open"@,
        Decision::Close { .. } => "close"@,
        Decision::Hold { .. } => "hold"@,
    }
}

/// The asset a decision applies to.
pub open spec fn spec_decision_asset(d: Decision) -> Seq<char> {
    match d {
        Decision::Open { asset, .. } => asset@,
        Decision::Close { asset } => asset@,
        Decision::Hold { asset } => asset@,
    }
}

/// Name of the decision kind, for table output.
pub fn kind_name(d: &Decision) -> (r: &'static str)
    ensures
        r@ == spec_kind_name(*d),
{
    match d {
        Decision::Open { .. } => "open",
        Decision::Close { .. } => "close",
        Decision::Hold { .. } => "hold",
    }
}

/// Asset the decision applies to.
pub fn decision_asset(d: &Decision) -> (r: &str)
    ensures
        r@ == spec_decision_asset(*d),
{
    match d {
        Decision::Open { asset, .. } => asset.as_str(),
        Decision::Close { asset } => asset.as_str(),
        Decision::Hold { asset } => asset.as_str(),
    }
}

} // verus!
