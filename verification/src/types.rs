//! Domain types: venues, sides, funding rates, positions and orders.
use vstd::prelude::*;
use crate::decimal::Dec;
use crate::text::push_str;

verus! {

broadcast use crate::decimal::group_dec_parts;

/// A point in time (UTC): whole seconds since the Unix epoch and the
/// nanoseconds within that second.
#[derive(Clone, Copy, Debug, PartialEq, Eq, Structural)]
pub struct Timestamp {
    pub secs: i64,
    pub nanos: u32,
}

impl Timestamp {
    /// Nanoseconds since the epoch.
    pub open spec fn total_nanos(self) -> int {
        self.secs * 1_000_000_000 + self.nanos
    }

    /// Chronological order: `self` comes strictly before `other`.
    pub open spec fn spec_before(self, other: Timestamp) -> bool {
        self.secs < other.secs || (self.secs == other.secs && self.nanos < other.nanos)
    }

    /// `self` comes before `other`.
    pub fn before(&self, other: &Timestamp) -> (r: bool)
        ensures
            r == self.spec_before(*other),
    {
        self.secs < other.secs || (self.secs == other.secs && self.nanos < other.nanos)
    }

    /// Whole seconds from `start` to `end`, rounded toward zero (what
    /// `(end - start).num_seconds()` gives).
    pub open spec fn spec_secs_between(start: Timestamp, end: Timestamp) -> int {
        let d = end.total_nanos() - start.total_nanos();
        if d >= 0 {
            d / 1_000_000_000
        } else {
            -((-d) / 1_000_000_000)
        }
    }

    pub fn secs_between(start: &Timestamp, end: &Timestamp) -> (r: i128)
        ensures
            r == Timestamp::spec_secs_between(*start, *end),
    {
        let d: i128 = (end.secs as i128 - start.secs as i128) * 1_000_000_000i128 + (end.nanos as i128 - start.nanos as i128);
        if d >= 0 {
            d / 1_000_000_000
        } else {
            -((-d) / 1_000_000_000)
        }
    }

    /// Whole milliseconds from `start` to `end`, rounded toward zero (what
    /// `(end - start).num_milliseconds()` gives).
    pub open spec fn spec_millis_between(start: Timestamp, end: Timestamp) -> int {
        let d = end.total_nanos() - start.total_nanos();
        if d >= 0 {
            d / 1_000_000
        } else {
            -((-d) / 1_000_000)
        }
    }

    pub fn millis_between(start: &Timestamp, end: &Timestamp) -> (r: i128)
        ensures
            r == Timestamp::spec_millis_between(*start, *end),
            -20_000_000_000_000_000_000_000 <= r <= 20_000_000_000_000_000_000_000,
    {
        let d: i128 = (end.secs as i128 - start.secs as i128) * 1_000_000_000i128 + (end.nanos as i128 - start.nanos as i128);
        if d >= 0 {
            d / 1_000_000
        } else {
            -((-d) / 1_000_000)
        }
    }
}

/// Name for `DateTime::<Utc>::from_timestamp(secs, nanos)` then
/// `format("%Y-%m-%dT%H:%M:%SZ")`: the UTC date and time of the instant, or
/// `None` where chrono cannot represent it.
pub uninterp spec fn utc_iso_text(secs: i64, nanos: u32) -> Option<Seq<char>>;

/// Calls `chrono::DateTime::<Utc>::from_timestamp` and formats the instant as
/// `%Y-%m-%dT%H:%M:%SZ`.
#[verifier::external_body]
pub(crate) fn format_utc(t: Timestamp) -> (r: Option<String>)
    ensures
        match (r, utc_iso_text(t.secs, t.nanos)) {
            (Some(s), Some(u)) => s@ == u,
            (None, None) => true,
            _ => false,
        },
{
    match chrono::DateTime::<chrono::Utc>::from_timestamp(t.secs, t.nanos) {
        Some(d) => Some(d.format("%Y-%m-%dT%H:%M:%SZ").to_string()),
        None => None,
    }
}

/// Calls `chrono::Utc::now` and returns its seconds and sub-second nanoseconds.
/// Nothing is promised of the value: it is the wall clock.
#[verifier::external_body]
pub(crate) fn now_utc() -> (r: Timestamp) {
    let t = chrono::Utc::now();
    Timestamp { secs: t.timestamp(), nanos: t.timestamp_subsec_nanos() }
}

#[derive(Clone, Copy, Debug, PartialEq, Eq, Hash, Structural)]
pub enum Venue {
    Hyperliquid,
    Binance,
    Bybit,
}

#[derive(Clone, Copy, Debug, PartialEq, Eq, Structural)]
pub enum Side {
    Long,
    Short,
}

impl Side {
    pub open spec fn spec_flip(self) -> Side {
        match self {
            Side::Long => Side::Short,
            Side::Short => Side::Long,
        }
    }

    /// The opposite side.
    pub fn flip(self) -> (r: Side)
        ensures
            r == self.spec_flip(),
    {
        match self {
            Side::Long => Side::Short,
            Side::Short => Side::Long,
        }
    }
}

/// Flipping twice gives the side back, and a side never equals its flip.
pub proof fn lemma_flip_involutive(s: Side)
    ensures
        s.spec_flip().spec_flip() == s,
        s.spec_flip() != s,
{
}

/// Funding rate observed on a venue for an asset.
#[derive(Debug)]
pub struct FundingRate {
    pub venue: Venue,
    pub asset: String,
    /// Per-interval rate, e.g. 0.0001 = 0.01% per interval.
    pub rate: Dec,
    /// Hours between funding payments: 1 on Hyperliquid, 8 on Binance/Bybit.
    pub interval_hours: u8,
    pub observed_at: Timestamp,
}

/// Hours in a (non-leap) year.
pub const HOURS_PER_YEAR: u32 = 8760u32;

/// Annualization of a per-interval rate: `rate * (8760 / interval_hours)`.
pub open spec fn spec_annualize(rate: Dec, interval_hours: u8) -> Option<Dec> {
    match Dec::spec_from_int(8760).spec_div(Dec::spec_from_int(interval_hours as int)) {
        Some(periods) => rate.spec_mul(periods),
        None => None,
    }
}

fn annualize_checked(rate: Dec, interval_hours: u8) -> (r: Option<Dec>)
    ensures
        r == spec_annualize(rate, interval_hours),
{
    let periods = Dec::from_u32(HOURS_PER_YEAR).checked_div(Dec::from_u32(interval_hours as u32));
    match periods {
        Some(p) => rate.checked_mul(p),
        None => None,
    }
}

impl FundingRate {
    pub open spec fn spec_annualized(&self) -> Option<Dec> {
        spec_annualize(self.rate, self.interval_hours)
    }

    /// Signed annualized rate: `rate * (24 * 365) / interval_hours`.
    pub fn annualized(&self) -> (r: Dec)
        requires
            self.spec_annualized() is Some,
        ensures
            Some(r) == self.spec_annualized(),
    {
        annualize_checked(self.rate, self.interval_hours).unwrap()
    }

    /// The annualized rate, or `None` where `annualized` would fail (a zero
    /// interval or an overflow).
    pub fn try_annualized(&self) -> (r: Option<Dec>)
        ensures
            r == self.spec_annualized(),
    {
        match annualize_checked(self.rate, self.interval_hours) {
            Some(_) => Some(self.annualized()),
            None => None,
        }
    }

    /// A field-by-field copy.
    pub fn duplicate(&self) -> (r: FundingRate)
        ensures
            r == *self,
    {
        FundingRate {
            venue: self.venue,
            asset: self.asset.clone(),
            rate: self.rate,
            interval_hours: self.interval_hours,
            observed_at: self.observed_at,
        }
    }
}

/// Funding rate plus mid price for an asset at one moment.
#[derive(Debug)]
pub struct MarketSnapshot {
    pub funding: FundingRate,
    /// Mid-market price in USD per base unit.
    pub mid_price: Dec,
}

#[derive(Debug)]
pub struct Position {
    pub venue: Venue,
    pub asset: String,
    pub side: Side,
    /// Base asset units (e.g. BTC, not USD).
    pub size: Dec,
    pub entry_price: Dec,
    pub leverage: Dec,
    pub margin_used: Dec,
    pub liquidation_price: Option<Dec>,
}

/// Directional exposure: `+notional` for a long, `-notional` for a short.
pub open spec fn spec_signed(side: Side, notional: Dec) -> Dec {
    match side {
        Side::Long => notional,
        Side::Short => notional.spec_neg(),
    }
}

impl Position {
    /// `size * mark_price`.
    pub open spec fn spec_notional(&self, mark_price: Dec) -> Option<Dec> {
        self.size.spec_mul(mark_price)
    }

    /// `+notional` for a Long, `-notional` for a Short.
    pub open spec fn spec_signed_notional(&self, mark_price: Dec) -> Option<Dec> {
        match self.spec_notional(mark_price) {
            Some(n) => Some(spec_signed(self.side, n)),
            None => None,
        }
    }

    pub fn notional_usd(&self, mark_price: Dec) -> (r: Dec)
        requires
            self.spec_notional(mark_price) is Some,
        ensures
            Some(r) == self.spec_notional(mark_price),
            r.valid(),
    {
        self.size.checked_mul(mark_price).unwrap()
    }

    /// `size * mark_price`, or `None` where the product overflows.
    pub fn try_notional_usd(&self, mark_price: Dec) -> (r: Option<Dec>)
        ensures
            r == self.spec_notional(mark_price),
            r matches Some(d) ==> d.valid(),
    {
        match self.size.checked_mul(mark_price) {
            Some(_) => Some(self.notional_usd(mark_price)),
            None => None,
        }
    }

    /// Directional exposure in USD: `+notional` for a Long, `-notional` for a
    /// Short. The exposures of the two sides at one mark are exact negations.
    pub fn signed_notional(&self, mark_price: Dec) -> (r: Dec)
        requires
            self.spec_notional(mark_price) is Some,
        ensures
            Some(r) == self.spec_signed_notional(mark_price),
            r == spec_signed(self.side.spec_flip(), self.spec_notional(mark_price)->0).spec_neg(),
    {
        let notional = self.notional_usd(mark_price);
        match self.side {
            Side::Long => notional,
            Side::Short => notional.neg(),
        }
    }

    /// The signed notional, or `None` where the product overflows.
    pub fn try_signed_notional(&self, mark_price: Dec) -> (r: Option<Dec>)
        ensures
            r == self.spec_signed_notional(mark_price),
    {
        match self.size.checked_mul(mark_price) {
            Some(_) => Some(self.signed_notional(mark_price)),
            None => None,
        }
    }

    /// A field-by-field copy.
    pub fn duplicate(&self) -> (r: Position)
        ensures
            r == *self,
    {
        Position {
            venue: self.venue,
            asset: self.asset.clone(),
            side: self.side,
            size: self.size,
            entry_price: self.entry_price,
            leverage: self.leverage,
            margin_used: self.margin_used,
            liquidation_price: self.liquidation_price,
        }
    }
}

#[derive(Debug)]
pub struct Order {
    pub venue: Venue,
    pub asset: String,
    pub side: Side,
    pub size: Dec,
    /// `None` = market order.
    pub limit_price: Option<Dec>,
    pub reduce_only: bool,
    /// Client order id (a UUID, as its 128-bit value).
    pub client_id: u128,
}

#[derive(Debug)]
pub enum VenueError {
    Network(String),
    Auth(String),
    Rejected(String),
    UnknownAsset(String),
    Other(String),
}

impl VenueError {
    pub open spec fn spec_message(&self) -> Seq<char> {
        match self {
            VenueError::Network(s) => "network error: "@ + s@,
            VenueError::Auth(s) => "auth error: "@ + s@,
            VenueError::Rejected(s) => "rejected by venue: "@ + s@,
            VenueError::UnknownAsset(s) => "symbol not found: "@ + s@,
            VenueError::Other(s) => "other: "@ + s@,
        }
    }

    /// Human-readable description, e.g. `"symbol not found: DOGE"`.
    pub fn message(&self) -> (r: String)
        ensures
            r@ == self.spec_message(),
    {
        let mut out: Vec<char> = Vec::new();
        match self {
            VenueError::Network(s) => {
                push_str(&mut out, "network error: ");
                push_str(&mut out, s.as_str());
            },
            VenueError::Auth(s) => {
                push_str(&mut out, "auth error: ");
                push_str(&mut out, s.as_str());
            },
            VenueError::Rejected(s) => {
                push_str(&mut out, "rejected by venue: ");
                push_str(&mut out, s.as_str());
            },
            VenueError::UnknownAsset(s) => {
                push_str(&mut out, "symbol not found: ");
                push_str(&mut out, s.as_str());
            },
            VenueError::Other(s) => {
                push_str(&mut out, "other: ");
                push_str(&mut out, s.as_str());
            },
        }
        crate::text::string_from_chars(&out)
    }
}

} // verus!
