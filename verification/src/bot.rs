//! One tick of the paper-trading loop: a market snapshot is turned into a
//! signal, the strategy decides on it, and an Open or Close becomes a
//! simulated fill that updates the portfolio. Opens are refused when the
//! position would start closer to liquidation than the configured buffer.
use vstd::prelude::*;
use crate::decimal::Dec;
use crate::digest::{open_position, open_position_of, open_trades};
use crate::executor::{simulate_fill_at, spec_fill, spec_fill_price, Fill, FillIntent};
use crate::flatten::new_client_id;
use crate::pnl::pair_fills;
use crate::risk::{default_maintenance_margin_ratio, spec_liquidation_buffer_pct, try_liquidation_buffer_pct};
use crate::strategy::{assets_distinct, decide, spec_close, spec_decide, spec_open, spec_signal, try_signal_for, Decision, FundingSignal, PortfolioState, Thresholds};
use crate::text::{lemma_same_asset_upper, same_asset};
use crate::types::{now_utc, MarketSnapshot, Order, Position, Side, Timestamp, Venue};

verus! {

broadcast use crate::decimal::group_dec_parts;

/// What one snapshot led to.
#[derive(Debug)]
pub struct Tick {
    pub signal: FundingSignal,
    pub decision: Decision,
    /// The simulated fill to record, if any.
    pub fill: Option<Fill>,
    /// For an Open refused by the liquidation-buffer gate: the buffer the
    /// position would have started with.
    pub refused_buffer: Option<Dec>,
}

/// Market order opening `notional` USD of `asset` at `mid`: size
/// `notional / mid`; `None` where the division fails.
pub open spec fn spec_open_order(venue: Venue, asset: String, side: Side, notional: Dec, mid: Dec, client_id: u128) -> Option<Order> {
    match notional.spec_div(mid) {
        Some(size) => Some(Order { venue, asset, side, size, limit_price: None, reduce_only: false, client_id }),
        None => None,
    }
}

/// The position an Open fill starts: its size and price, leverage 1, its
/// notional as margin.
pub open spec fn filled_position(f: Fill) -> Position {
    Position {
        venue: f.venue,
        asset: f.asset,
        side: f.side,
        size: f.size,
        entry_price: f.price,
        leverage: Dec::spec_one(),
        margin_used: f.notional_usd,
        liquidation_price: None,
    }
}

/// Reduce-only market order closing `p`: same size, opposite side.
pub open spec fn spec_closing_order(p: Position, client_id: u128) -> Order {
    Order {
        venue: p.venue,
        asset: p.asset,
        side: p.side.spec_flip(),
        size: p.size,
        limit_price: None,
        reduce_only: true,
        client_id,
    }
}

/// The fill of `order` at `mid` and time `now`; `None` where its notional
/// overflows.
pub open spec fn checked_fill(order: Order, mid: Dec, intent: FillIntent, now: Timestamp) -> Option<Fill> {
    if order.size.spec_mul(spec_fill_price(order, mid)) is Some {
        Some(spec_fill(order, mid, intent, now))
    } else {
        None
    }
}

/// A tick on `positions`: the portfolio after it and what it led to, or
/// `None` where a computation overflows.
///
/// * The signal is the snapshot's funding rate annualized, and the decision
///   that of the strategy on it.
/// * `Open`: a market order of `notional / mid` at the mid; when the position
///   it starts would have a liquidation buffer below `min_buffer` (default
///   maintenance margin), nothing is filled and the portfolio stays as it
///   was; otherwise the fill is made and the position opened.
/// * `Close`: the position in the asset is taken out and closed at the mid
///   by a reduce-only order on the opposite side.
/// * `Hold`: nothing.
pub open spec fn tick_outcome(
    positions: Seq<Position>,
    snapshot: MarketSnapshot,
    thresholds: Thresholds,
    max_notional: Dec,
    min_buffer: Dec,
    client_id: u128,
    now: Timestamp,
) -> Option<(Seq<Position>, Tick)> {
    let mid = snapshot.mid_price;
    match spec_signal(snapshot.funding) {
        None => None,
        Some(signal) => {
            let decision = spec_decide(positions, signal, thresholds, max_notional);
            match decision {
                Decision::Open { asset, side, notional_usd } => match spec_open_order(signal.venue, asset, side, notional_usd, mid, client_id) {
                    None => None,
                    Some(order) => match checked_fill(order, mid, FillIntent::Open, now) {
                        None => None,
                        Some(fill) => match spec_liquidation_buffer_pct(filled_position(fill), mid, Dec::of(5, 3)) {
                            None => None,
                            Some(buffer) => if buffer.num_lt(min_buffer) {
                                Some((positions, Tick { signal, decision, fill: None, refused_buffer: Some(buffer) }))
                            } else {
                                Some((spec_open(positions, filled_position(fill)), Tick { signal, decision, fill: Some(fill), refused_buffer: None }))
                            },
                        },
                    },
                },
                Decision::Close { asset } => match spec_close(positions, asset@) {
                    (rest, Some(p)) => match checked_fill(spec_closing_order(p, client_id), mid, FillIntent::Close, now) {
                        Some(fill) => Some((rest, Tick { signal, decision, fill: Some(fill), refused_buffer: None })),
                        None => None,
                    },
                    (rest, None) => Some((rest, Tick { signal, decision, fill: None, refused_buffer: None })),
                },
                Decision::Hold { .. } => Some((positions, Tick { signal, decision, fill: None, refused_buffer: None })),
            }
        },
    }
}

fn fill_checked(order: &Order, mid: Dec, intent: FillIntent, now: Timestamp) -> (r: Option<Fill>)
    ensures
        r == checked_fill(*order, mid, intent, now),
{
    let price = match order.limit_price {
        Some(p) => p,
        None => mid,
    };
    match order.size.checked_mul(price) {
        Some(_) => Some(simulate_fill_at(order, mid, intent, now)),
        None => None,
    }
}

/// The tick (see `tick_outcome`) with the given client id for a new order and
/// the given time for its fill. Where it cannot be computed the portfolio is
/// left as it was. A portfolio holding at most one position per asset keeps
/// holding at most one.
pub fn tick_at(
    portfolio: &mut PortfolioState,
    snapshot: &MarketSnapshot,
    thresholds: &Thresholds,
    max_notional: Dec,
    min_buffer: Dec,
    client_id: u128,
    now: Timestamp,
) -> (r: Option<Tick>)
    ensures
        match tick_outcome(old(portfolio).positions@, *snapshot, *thresholds, max_notional, min_buffer, client_id, now) {
            Some((ps, t)) => r == Some(t) && final(portfolio).positions@ == ps,
            None => r is None && final(portfolio).positions@ == old(portfolio).positions@,
        },
        assets_distinct(old(portfolio).positions@) ==> assets_distinct(final(portfolio).positions@),
{
    let mid = snapshot.mid_price;
    let signal = match try_signal_for(&snapshot.funding) {
        Some(s) => s,
        None => return None,
    };
    let decision = decide(portfolio, &signal, thresholds, max_notional);
    match &decision {
        Decision::Open { asset, side, notional_usd } => {
            let size = match notional_usd.checked_div(mid) {
                Some(s) => s,
                None => return None,
            };
            let order = Order {
                venue: signal.venue,
                asset: asset.clone(),
                side: *side,
                size,
                limit_price: None,
                reduce_only: false,
                client_id,
            };
            let fill = match fill_checked(&order, mid, FillIntent::Open, now) {
                Some(f) => f,
                None => return None,
            };
            let position = Position {
                venue: fill.venue,
                asset: fill.asset.clone(),
                side: fill.side,
                size: fill.size,
                entry_price: fill.price,
                leverage: Dec::one(),
                margin_used: fill.notional_usd,
                liquidation_price: None,
            };
            let buffer = match try_liquidation_buffer_pct(&position, mid, default_maintenance_margin_ratio()) {
                Some(b) => b,
                None => return None,
            };
            if buffer.lt(&min_buffer) {
                return Some(Tick { signal, decision, fill: None, refused_buffer: Some(buffer) });
            }
            portfolio.open(position);
            Some(Tick { signal, decision, fill: Some(fill), refused_buffer: None })
        },
        Decision::Close { asset } => {
            let fill = match portfolio.position_for(asset.as_str()) {
                None => None,
                Some(p) => {
                    let order = Order {
                        venue: p.venue,
                        asset: p.asset.clone(),
                        side: p.side.flip(),
                        size: p.size,
                        limit_price: None,
                        reduce_only: true,
                        client_id,
                    };
                    match fill_checked(&order, mid, FillIntent::Close, now) {
                        Some(f) => Some(f),
                        None => return None,
                    }
                },
            };
            let _closed = portfolio.close(asset.as_str());
            Some(Tick { signal, decision, fill, refused_buffer: None })
        },
        Decision::Hold { .. } => Some(Tick { signal, decision, fill: None, refused_buffer: None }),
    }
}

/// The tick (see `tick_outcome`) under a fresh random client id, filled at
/// the current time.
pub fn tick(
    portfolio: &mut PortfolioState,
    snapshot: &MarketSnapshot,
    thresholds: &Thresholds,
    max_notional: Dec,
    min_buffer: Dec,
) -> (r: Option<Tick>)
    ensures
        exists|client_id: u128, now: Timestamp|
            #![trigger tick_outcome(old(portfolio).positions@, *snapshot, *thresholds, max_notional, min_buffer, client_id, now)]
            match tick_outcome(old(portfolio).positions@, *snapshot, *thresholds, max_notional, min_buffer, client_id, now) {
                Some((ps, t)) => r == Some(t) && final(portfolio).positions@ == ps,
                None => r is None && final(portfolio).positions@ == old(portfolio).positions@,
            },
        assets_distinct(old(portfolio).positions@) ==> assets_distinct(final(portfolio).positions@),
{
    let client_id = new_client_id();
    let now = now_utc();
    tick_at(portfolio, snapshot, thresholds, max_notional, min_buffer, client_id, now)
}

/// The portfolio left by the fills: one position per still-open trade (see
/// `digest::open_position`), so a restart does not open again what is held.
/// It holds at most one position per asset.
pub fn restore_portfolio(fills: &[Fill]) -> (r: PortfolioState)
    ensures
        r.positions@ == open_trades(fills@).map_values(|t: crate::pnl::OpenTrade| open_position(t)),
        assets_distinct(r.positions@),
{
    let (_closed, open) = pair_fills(fills);
    let mut positions: Vec<Position> = Vec::new();
    let mut i: usize = 0;
    while i < open.len()
        invariant
            i <= open@.len(),
            open@ == open_trades(fills@),
            positions@ == open@.take(i as int).map_values(|t: crate::pnl::OpenTrade| open_position(t)),
        decreases open@.len() - i,
    {
        positions.push(open_position_of(&open[i]));
        assert(open@.take(i + 1) =~= open@.take(i as int).push(open@[i as int]));
        assert(positions@ =~= open@.take(i + 1).map_values(|t: crate::pnl::OpenTrade| open_position(t)));
        i = i + 1;
    }
    assert(open@.take(open@.len() as int) =~= open@);
    proof {
        crate::pnl::lemma_pairing_shape(fills@);
        let entries = crate::pnl::pair_state(fills@).1;
        let ps = positions@;
        assert forall|i: int, j: int| 0 <= i < j < ps.len() implies !same_asset(#[trigger] ps[i].asset@, #[trigger] ps[j].asset@) by {
            assert(ps[i].asset == entries[i].1.asset && ps[j].asset == entries[j].1.asset);
            if same_asset(ps[i].asset@, ps[j].asset@) {
                lemma_same_asset_upper(ps[i].asset@, ps[j].asset@);
                assert(entries[i].0 != entries[j].0);
            }
        }
    }
    PortfolioState { positions }
}

} // verus!
