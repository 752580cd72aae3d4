//! Dry-run order execution: fills simulated at the limit price or the mid,
//! with no fees, no slippage and no partial fills.
use vstd::prelude::*;
use crate::decimal::Dec;
use crate::types::{now_utc, Order, Side, Timestamp, Venue};

verus! {

broadcast use crate::decimal::group_dec_parts;

/// File name (within the state directory) of the append-only fills log.
pub const FILLS_LOG_FILE: &'static str = "fills.jsonl";

/// Whether a fill opened a new position or closed an existing one.
#[derive(Clone, Copy, Debug, PartialEq, Eq, Structural)]
pub enum FillIntent {
    Open,
    Close,
}

#[derive(Debug)]
pub struct Fill {
    pub venue: Venue,
    pub asset: String,
    /// Side of the order that produced this fill: the new position's side for an
    /// Open, the side opposite the closed position for a Close.
    pub side: Side,
    /// Size in base units.
    pub size: Dec,
    /// Filled price in USD per base unit.
    pub price: Dec,
    /// `size * price`.
    pub notional_usd: Dec,
    /// Fees paid in USD: zero in dry-run.
    pub fees_usd: Dec,
    pub filled_at: Timestamp,
    pub intent: FillIntent,
    /// `client_id` of the originating order.
    pub order_id: u128,
}

impl Fill {
    /// A field-by-field copy.
    pub fn duplicate(&self) -> (r: Fill)
        ensures
            r == *self,
    {
        Fill {
            venue: self.venue,
            asset: self.asset.clone(),
            side: self.side,
            size: self.size,
            price: self.price,
            notional_usd: self.notional_usd,
            fees_usd: self.fees_usd,
            filled_at: self.filled_at,
            intent: self.intent,
            order_id: self.order_id,
        }
    }
}

/// Price a dry-run order fills at: its limit price, else the mid.
pub open spec fn spec_fill_price(order: Order, mid_price: Dec) -> Dec {
    match order.limit_price {
        Some(p) => p,
        None => mid_price,
    }
}

/// The simulated fill of `order` at time `filled_at`.
pub open spec fn spec_fill(order: Order, mid_price: Dec, intent: FillIntent, filled_at: Timestamp) -> Fill {
    let price = spec_fill_price(order, mid_price);
    Fill {
        venue: order.venue,
        asset: order.asset,
        side: order.side,
        size: order.size,
        price,
        notional_usd: order.size.spec_mul(price)->0,
        fees_usd: Dec::spec_zero(),
        filled_at,
        intent,
        order_id: order.client_id,
    }
}

/// The simulated fill at a given time.
pub fn simulate_fill_at(order: &Order, mid_price: Dec, intent: FillIntent, filled_at: Timestamp) -> (r: Fill)
    requires
        order.size.spec_mul(spec_fill_price(*order, mid_price)) is Some,
    ensures
        r == spec_fill(*order, mid_price, intent, filled_at),
{
    let price = match order.limit_price {
        Some(p) => p,
        None => mid_price,
    };
    Fill {
        venue: order.venue,
        asset: order.asset.clone(),
        side: order.side,
        size: order.size,
        price,
        notional_usd: order.size.checked_mul(price).unwrap(),
        fees_usd: Dec::zero(),
        filled_at,
        intent,
        order_id: order.client_id,
    }
}

/// Dry-run fill: at the order's limit price if it has one, otherwise at
/// `mid_price`; notional `size * price`, zero fees, stamped with the current time.
pub fn simulate_fill(order: &Order, mid_price: Dec, intent: FillIntent) -> (r: Fill)
    requires
        order.size.spec_mul(spec_fill_price(*order, mid_price)) is Some,
    ensures
        r == spec_fill(*order, mid_price, intent, r.filled_at),
{
    let now = now_utc();
    simulate_fill_at(order, mid_price, intent, now)
}

/// `simulate_fill`, or `None` where the notional overflows.
pub fn try_simulate_fill(order: &Order, mid_price: Dec, intent: FillIntent) -> (r: Option<Fill>)
    ensures
        r is Some <==> order.size.spec_mul(spec_fill_price(*order, mid_price)) is Some,
        r matches Some(f) ==> f == spec_fill(*order, mid_price, intent, f.filled_at),
{
    let price = match order.limit_price {
        Some(p) => p,
        None => mid_price,
    };
    match order.size.checked_mul(price) {
        Some(_) => Some(simulate_fill(order, mid_price, intent)),
        None => None,
    }
}

} // verus!
