//! `flatten`: the emergency kill-switch. Every still-open position gets a
//! reduce-only order on the opposite side, filled in dry-run at a fresh mid;
//! what happened to each is tallied and summarized.
use vstd::prelude::*;
use crate::decimal::Dec;
use crate::executor::{simulate_fill_at, spec_fill, spec_fill_price, Fill, FillIntent};
use crate::pnl::OpenTrade;
use crate::report::{push_line, texts};
use crate::text::{decimal_digits, push_str, push_u64, string_from_chars};
use crate::types::{Order, Timestamp, VenueError};

verus! {

broadcast use crate::decimal::group_dec_parts;

/// Calls `uuid::Uuid::new_v4` and returns its 128-bit value. Nothing is
/// promised of it: it is random.
#[verifier::external_body]
pub(crate) fn new_client_id() -> (r: u128) {
    uuid::Uuid::new_v4().as_u128()
}

/// The order that closes an open trade: same venue, asset and size, the
/// opposite side, reduce-only, at market.
pub open spec fn spec_close_order(trade: OpenTrade, client_id: u128) -> Order {
    Order {
        venue: trade.open.venue,
        asset: trade.asset,
        side: trade.side.spec_flip(),
        size: trade.open.size,
        limit_price: None,
        reduce_only: true,
        client_id,
    }
}

/// The closing order of `trade` with the given client id.
pub fn close_order_for(trade: &OpenTrade, client_id: u128) -> (r: Order)
    ensures
        r == spec_close_order(*trade, client_id),
{
    Order {
        venue: trade.open.venue,
        asset: trade.asset.clone(),
        side: trade.side.flip(),
        size: trade.open.size,
        limit_price: None,
        reduce_only: true,
        client_id,
    }
}

/// The closing order of `trade` under a fresh random client id.
pub fn new_close_order(trade: &OpenTrade) -> (r: Order)
    ensures
        r == spec_close_order(*trade, r.client_id),
{
    close_order_for(trade, new_client_id())
}

/// The dry-run Close fill of `trade` at `mid`, at time `filled_at`; `None`
/// where its notional overflows.
pub fn close_fill(trade: &OpenTrade, mid: Dec, client_id: u128, filled_at: Timestamp) -> (r: Option<Fill>)
    ensures
        match r {
            Some(f) => f == spec_fill(spec_close_order(*trade, client_id), mid, FillIntent::Close, filled_at),
            None => trade.open.size.spec_mul(mid) is None,
        },
{
    let order = close_order_for(trade, client_id);
    match trade.open.size.checked_mul(mid) {
        Some(_) => Some(simulate_fill_at(&order, mid, FillIntent::Close, filled_at)),
        None => None,
    }
}

/// First line: nothing to do, or how many positions are being flattened
/// through which endpoint.
pub open spec fn intro_text(open_count: nat, state_dir: Seq<char>, api_url: Seq<char>) -> Seq<char> {
    if open_count == 0 {
        "nothing to flatten \u{2014} no open positions in "@ + state_dir
    } else {
        "flattening "@ + decimal_digits(open_count) + " open position(s) via "@ + api_url
    }
}

/// The first line printed by `flatten`.
pub fn intro_line(open_count: usize, state_dir: &str, api_url: &str) -> (r: String)
    ensures
        r@ == intro_text(open_count as nat, state_dir@, api_url@),
{
    let mut out: Vec<char> = Vec::new();
    if open_count == 0 {
        push_str(&mut out, "nothing to flatten \u{2014} no open positions in ");
        push_str(&mut out, state_dir);
    } else {
        push_str(&mut out, "flattening ");
        push_u64(&mut out, open_count as u64);
        push_str(&mut out, " open position(s) via ");
        push_str(&mut out, api_url);
    }
    assert(out@ =~= intro_text(open_count as nat, state_dir@, api_url@));
    string_from_chars(&out)
}

/// How the positions fared: how many were closed, and the asset and error of
/// each that was not, in order.
#[derive(Debug)]
pub struct FlattenTally {
    pub closed_ok: usize,
    pub errored: Vec<(String, String)>,
}

/// The errors as `(asset, message)` texts.
pub open spec fn error_texts(errored: Seq<(String, String)>) -> Seq<(Seq<char>, Seq<char>)> {
    errored.map_values(|e: (String, String)| (e.0@, e.1@))
}

impl FlattenTally {
    /// Nothing closed, no error.
    pub fn new() -> (r: FlattenTally)
        ensures
            r.closed_ok == 0,
            r.errored@.len() == 0,
    {
        FlattenTally { closed_ok: 0, errored: Vec::new() }
    }

    /// The mid of `asset` could not be fetched: records the venue error.
    pub fn fetch_failed(&mut self, asset: &str, error: &VenueError)
        ensures
            final(self).closed_ok == old(self).closed_ok,
            error_texts(final(self).errored@) == error_texts(old(self).errored@).push((asset@, error.spec_message())),
    {
        let mut name: Vec<char> = Vec::new();
        push_str(&mut name, asset);
        let name = string_from_chars(&name);
        let msg = error.message();
        self.errored.push((name, msg));
        assert(error_texts(self.errored@) =~= error_texts(old(self).errored@).push((asset@, error.spec_message())));
    }

    /// The Close fill was written: one more position closed.
    pub fn persisted(&mut self)
        requires
            old(self).closed_ok < usize::MAX,
        ensures
            final(self).closed_ok == old(self).closed_ok + 1,
            final(self).errored@ == old(self).errored@,
    {
        self.closed_ok = self.closed_ok + 1;
    }

    /// The Close fill of `asset` could not be written: records
    /// `persist: {error}`.
    pub fn persist_failed(&mut self, asset: &str, error: &str)
        ensures
            final(self).closed_ok == old(self).closed_ok,
            error_texts(final(self).errored@) == error_texts(old(self).errored@).push((asset@, "persist: "@ + error@)),
    {
        let mut name: Vec<char> = Vec::new();
        push_str(&mut name, asset);
        let name = string_from_chars(&name);
        let mut msg: Vec<char> = Vec::new();
        push_str(&mut msg, "persist: ");
        push_str(&mut msg, error);
        let msg = string_from_chars(&msg);
        self.errored.push((name, msg));
        assert(error_texts(self.errored@) =~= error_texts(old(self).errored@).push((asset@, "persist: "@ + error@)));
    }
}

/// Lines printed at the end: how many of `total` positions were closed, then
/// the errors, one per line, when there were any.
pub open spec fn summary_lines(closed_ok: nat, total: nat, errors: Seq<(Seq<char>, Seq<char>)>) -> Seq<Seq<char>> {
    let head = seq!["flatten complete: closed "@ + decimal_digits(closed_ok) + " of "@ + decimal_digits(total) + " position(s)"@];
    if errors.len() == 0 {
        head
    } else {
        head + seq!["errors:"@] + Seq::new(errors.len(), |i: int| "  "@ + errors[i].0 + ": "@ + errors[i].1)
    }
}

/// The failure `flatten` ends with when a position could not be flattened:
/// `{failed} of {total} positions failed to flatten`.
pub open spec fn failure_text(failed: nat, total: nat) -> Seq<char> {
    decimal_digits(failed) + " of "@ + decimal_digits(total) + " positions failed to flatten"@
}

/// The closing lines and, when a position failed, the failure message.
pub fn summary(tally: &FlattenTally, total: usize) -> (r: (Vec<String>, Option<String>))
    ensures
        texts(r.0@) == summary_lines(tally.closed_ok as nat, total as nat, error_texts(tally.errored@)),
        match r.1 {
            Some(m) => tally.errored@.len() > 0 && m@ == failure_text(tally.errored@.len(), total as nat),
            None => tally.errored@.len() == 0,
        },
{
    let mut lines: Vec<String> = Vec::new();
    assert(texts(lines@) =~= Seq::<Seq<char>>::empty());
    let mut head: Vec<char> = Vec::new();
    push_str(&mut head, "flatten complete: closed ");
    push_u64(&mut head, tally.closed_ok as u64);
    push_str(&mut head, " of ");
    push_u64(&mut head, total as u64);
    push_str(&mut head, " position(s)");
    push_line(&mut lines, &head);
    let ghost errors = error_texts(tally.errored@);
    let ghost first = seq![
        "flatten complete: closed "@ + decimal_digits(tally.closed_ok as nat) + " of "@ + decimal_digits(total as nat) + " position(s)"@,
    ];
    assert(texts(lines@) =~= first);
    if tally.errored.len() == 0 {
        return (lines, None);
    }
    crate::report::push_line_str(&mut lines, "errors:");
    let mut i: usize = 0;
    while i < tally.errored.len()
        invariant
            errors == error_texts(tally.errored@),
            i <= tally.errored@.len(),
            texts(lines@) == first + seq!["errors:"@] + Seq::new(i as nat, |j: int| "  "@ + errors[j].0 + ": "@ + errors[j].1),
        decreases tally.errored@.len() - i,
    {
        let mut out: Vec<char> = Vec::new();
        push_str(&mut out, "  ");
        push_str(&mut out, tally.errored[i].0.as_str());
        push_str(&mut out, ": ");
        push_str(&mut out, tally.errored[i].1.as_str());
        assert(errors[i as int] == (tally.errored@[i as int].0@, tally.errored@[i as int].1@));
        push_line(&mut lines, &out);
        assert(Seq::new((i + 1) as nat, |j: int| "  "@ + errors[j].0 + ": "@ + errors[j].1) =~= Seq::new(
            i as nat,
            |j: int| "  "@ + errors[j].0 + ": "@ + errors[j].1,
        ).push(out@));
        i = i + 1;
    }
    let mut msg: Vec<char> = Vec::new();
    push_u64(&mut msg, tally.errored.len() as u64);
    push_str(&mut msg, " of ");
    push_u64(&mut msg, total as u64);
    push_str(&mut msg, " positions failed to flatten");
    assert(msg@ =~= failure_text(tally.errored@.len(), total as nat));
    (lines, Some(string_from_chars(&msg)))
}

} // verus!
