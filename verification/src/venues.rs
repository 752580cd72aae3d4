//! Reading funding rates and mid prices out of Hyperliquid's
//! `metaAndAssetCtxs` response (its `meta` universe and the per-asset contexts
//! listed in the same order).
use vstd::prelude::*;
use crate::decimal::Dec;
use crate::text::{eq_ignore_ascii_case, push_str, push_u64, same_asset, string_from_chars, decimal_digits};
use crate::types::{FundingRate, MarketSnapshot, Order, Side, Timestamp, Venue, VenueError};

verus! {

broadcast use crate::decimal::group_dec_parts;

/// Name for `<rust_decimal::Decimal as FromStr>::from_str`: the parts of the parsed
/// decimal (mantissa, scale, sign bit), or the text of the parse error.
pub uninterp spec fn decimal_from_str(s: Seq<char>) -> Result<(i128, u32, bool), Seq<char>>;

/// Name for `format!("{:?}", s)`: the string quoted and escaped as Rust's `Debug` does.
pub uninterp spec fn debug_quoted(s: Seq<char>) -> Seq<char>;

/// The parsed decimal, or the parse error's text.
pub open spec fn spec_parse_decimal(s: Seq<char>) -> Result<Dec, Seq<char>> {
    match decimal_from_str(s) {
        Ok((m, sc, neg)) => Ok(Dec::of_signed(m, sc, neg)),
        Err(e) => Err(e),
    }
}

/// Calls `rust_decimal::Decimal::from_str` on `s`; the error is converted to its
/// display text.
#[verifier::external_body]
fn parse_decimal(s: &str) -> (r: Result<Dec, String>)
    ensures
        match (r, decimal_from_str(s@)) {
            (Ok(d), Ok((m, sc, neg))) => d == Dec::of_signed(m, sc, neg) && d.valid(),
            (Err(e), Err(t)) => e@ == t,
            _ => false,
        },
{
    match <rust_decimal::Decimal as core::str::FromStr>::from_str(s) {
        Ok(d) => Ok(Dec::with_sign(d.mantissa(), d.scale(), d.is_sign_negative())),
        Err(e) => Err(e.to_string()),
    }
}

/// Calls `format!("{:?}", s)`.
#[verifier::external_body]
fn debug_quote(s: &str) -> (r: String)
    ensures
        r@ == debug_quoted(s@),
{
    format!("{:?}", s)
}

#[derive(Debug)]
pub struct UniverseEntry {
    pub name: String,
}

/// The `meta` half of the response: the perp universe, in index order.
#[derive(Debug)]
pub struct Meta {
    pub universe: Vec<UniverseEntry>,
}

/// Per-asset context: funding rate and (when quoted) mid price, as text.
#[derive(Debug)]
pub struct AssetCtx {
    pub funding: String,
    pub mid_px: Option<String>,
}

/// Index of the first universe entry named `asset`, ignoring ASCII case.
pub open spec fn universe_index(universe: Seq<UniverseEntry>, asset: Seq<char>) -> Option<int>
    decreases universe.len(),
{
    if universe.len() == 0 {
        None
    } else {
        match universe_index(universe.drop_last(), asset) {
            Some(i) => Some(i),
            None => if same_asset(universe.last().name@, asset) {
                Some(universe.len() - 1)
            } else {
                None
            },
        }
    }
}

proof fn lemma_universe_index(universe: Seq<UniverseEntry>, asset: Seq<char>)
    ensures
        match universe_index(universe, asset) {
            Some(i) => 0 <= i < universe.len() && same_asset(universe[i].name@, asset) && forall|k: int|
                0 <= k < i ==> !same_asset(#[trigger] universe[k].name@, asset),
            None => forall|k: int| 0 <= k < universe.len() ==> !same_asset(#[trigger] universe[k].name@, asset),
        },
    decreases universe.len(),
{
    if universe.len() > 0 {
        lemma_universe_index(universe.drop_last(), asset);
        assert forall|k: int| 0 <= k < universe.len() - 1 implies universe[k] == universe.drop_last()[k] by {}
    }
}

proof fn lemma_universe_index_same_asset(universe: Seq<UniverseEntry>, a: Seq<char>, b: Seq<char>)
    requires
        same_asset(a, b),
    ensures
        universe_index(universe, a) == universe_index(universe, b),
    decreases universe.len(),
{
    if universe.len() > 0 {
        lemma_universe_index_same_asset(universe.drop_last(), a, b);
    }
}

/// Reading a market is case-insensitive in the asset: two names that match
/// ignoring ASCII case find the same entry, so they read the same funding
/// rate and the same mid price whenever the read succeeds.
pub proof fn lemma_reads_ignore_case(meta: Meta, ctxs: Seq<AssetCtx>, a: Seq<char>, b: Seq<char>, d: Dec)
    requires
        same_asset(a, b),
    ensures
        universe_index(meta.universe@, a) == universe_index(meta.universe@, b),
        funding_readable(meta, ctxs, a) == funding_readable(meta, ctxs, b),
        funding_outcome(meta, ctxs, a, Ok(d)) == funding_outcome(meta, ctxs, b, Ok(d)),
        mid_outcome(meta, ctxs, a, Ok(d)) == mid_outcome(meta, ctxs, b, Ok(d)),
{
    lemma_universe_index_same_asset(meta.universe@, a, b);
}

/// Message for a universe index with no context: `asset ctxs missing index {idx} for {asset}`.
pub open spec fn missing_index_message(idx: nat, asset: Seq<char>) -> Seq<char> {
    "asset ctxs missing index "@ + decimal_digits(idx) + " for "@ + asset
}

/// What looking up the context of `asset` gives: `UnknownAsset(asset)` when no
/// universe entry has that name (ignoring ASCII case), the context at the
/// entry's index, or `Other` when the contexts list is too short.
pub open spec fn ctx_lookup_result(meta: Meta, ctxs: Seq<AssetCtx>, asset: Seq<char>, r: Result<AssetCtx, VenueError>) -> bool {
    match universe_index(meta.universe@, asset) {
        None => r matches Err(VenueError::UnknownAsset(s)) && s@ == asset,
        Some(i) => if i < ctxs.len() {
            r == Ok::<AssetCtx, VenueError>(ctxs[i])
        } else {
            r matches Err(VenueError::Other(s)) && s@ == missing_index_message(i as nat, asset)
        },
    }
}

/// The context of `asset` in the response.
pub fn ctx_for<'a>(meta: &Meta, ctxs: &'a [AssetCtx], asset: &str) -> (r: Result<&'a AssetCtx, VenueError>)
    ensures
        ctx_lookup_result(*meta, ctxs@, asset@, match r {
            Ok(c) => Ok(*c),
            Err(e) => Err(e),
        }),
{
    let mut i: usize = 0;
    while i < meta.universe.len()
        invariant
            i <= meta.universe@.len(),
            forall|k: int| 0 <= k < i ==> !same_asset(#[trigger] meta.universe@[k].name@, asset@),
        decreases meta.universe@.len() - i,
    {
        if eq_ignore_ascii_case(meta.universe[i].name.as_str(), asset) {
            proof {
                lemma_universe_index(meta.universe@, asset@);
            }
            if i < ctxs.len() {
                return Ok(&ctxs[i]);
            }
            let mut msg: Vec<char> = Vec::new();
            push_str(&mut msg, "asset ctxs missing index ");
            push_u64(&mut msg, i as u64);
            push_str(&mut msg, " for ");
            push_str(&mut msg, asset);
            return Err(VenueError::Other(string_from_chars(&msg)));
        }
        i = i + 1;
    }
    proof {
        lemma_universe_index(meta.universe@, asset@);
    }
    let mut name: Vec<char> = Vec::new();
    push_str(&mut name, asset);
    Err(VenueError::UnknownAsset(string_from_chars(&name)))
}

/// Message for an unparseable decimal field: `bad {field} decimal {text:?}: {error}`.
pub open spec fn bad_decimal_message(field: Seq<char>, text: Seq<char>, error: Seq<char>) -> Seq<char> {
    "bad "@ + field + " decimal "@ + debug_quoted(text) + ": "@ + error
}

fn bad_decimal(field: &str, text: &str, error: &str) -> (r: VenueError)
    ensures
        r matches VenueError::Other(s) && s@ == bad_decimal_message(field@, text@, error@),
{
    let quoted = debug_quote(text);
    let mut msg: Vec<char> = Vec::new();
    push_str(&mut msg, "bad ");
    push_str(&mut msg, field);
    push_str(&mut msg, " decimal ");
    push_str(&mut msg, quoted.as_str());
    push_str(&mut msg, ": ");
    push_str(&mut msg, error);
    VenueError::Other(string_from_chars(&msg))
}

/// Parse of a decimal field: the value, or `Other(bad {field} decimal ...)`.
pub open spec fn parsed_field(field: Seq<char>, text: Seq<char>, r: Result<Dec, VenueError>) -> bool {
    match spec_parse_decimal(text) {
        Ok(d) => r == Ok::<Dec, VenueError>(d),
        Err(e) => r matches Err(VenueError::Other(s)) && s@ == bad_decimal_message(field, text, e),
    }
}

/// What reading the funding rate of `asset` gives: its context (see
/// `ctx_lookup_result`), then its `funding` text parsed as a decimal.
pub open spec fn funding_outcome(meta: Meta, ctxs: Seq<AssetCtx>, asset: Seq<char>, r: Result<Dec, VenueError>) -> bool {
    match universe_index(meta.universe@, asset) {
        Some(i) => if i < ctxs.len() {
            parsed_field("funding"@, ctxs[i].funding@, r)
        } else {
            r matches Err(VenueError::Other(s)) && s@ == missing_index_message(i as nat, asset)
        },
        None => r matches Err(VenueError::UnknownAsset(s)) && s@ == asset,
    }
}

/// What reading the mid price of `asset` gives: its context (see
/// `ctx_lookup_result`); `Other(midPx missing for {asset})` when it quotes
/// none; else its `midPx` text parsed as a decimal.
pub open spec fn mid_outcome(meta: Meta, ctxs: Seq<AssetCtx>, asset: Seq<char>, r: Result<Dec, VenueError>) -> bool {
    match universe_index(meta.universe@, asset) {
        Some(i) => if i < ctxs.len() {
            match ctxs[i].mid_px {
                Some(t) => parsed_field("midPx"@, t@, r),
                None => r matches Err(VenueError::Other(s)) && s@ == missing_mid_message(asset),
            }
        } else {
            r matches Err(VenueError::Other(s)) && s@ == missing_index_message(i as nat, asset)
        },
        None => r matches Err(VenueError::UnknownAsset(s)) && s@ == asset,
    }
}

/// Whether the funding rate of `asset` can be read from the response.
pub open spec fn funding_readable(meta: Meta, ctxs: Seq<AssetCtx>, asset: Seq<char>) -> bool {
    match universe_index(meta.universe@, asset) {
        Some(i) => i < ctxs.len() && spec_parse_decimal(ctxs[i].funding@) is Ok,
        None => false,
    }
}

/// The funding rate of `asset` in a `metaAndAssetCtxs` response.
pub fn extract_funding(meta: &Meta, ctxs: &[AssetCtx], asset: &str) -> (r: Result<Dec, VenueError>)
    ensures
        funding_outcome(*meta, ctxs@, asset@, r),
        r is Ok <==> funding_readable(*meta, ctxs@, asset@),
{
    let ctx = match ctx_for(meta, ctxs, asset) {
        Ok(c) => c,
        Err(e) => return Err(e),
    };
    match parse_decimal(ctx.funding.as_str()) {
        Ok(d) => Ok(d),
        Err(e) => Err(bad_decimal("funding", ctx.funding.as_str(), e.as_str())),
    }
}

/// Message for a context without a mid price: `midPx missing for {asset}`.
pub open spec fn missing_mid_message(asset: Seq<char>) -> Seq<char> {
    "midPx missing for "@ + asset
}

/// The mid price of `asset` in a `metaAndAssetCtxs` response.
pub fn extract_mid_price(meta: &Meta, ctxs: &[AssetCtx], asset: &str) -> (r: Result<Dec, VenueError>)
    ensures
        mid_outcome(*meta, ctxs@, asset@, r),
{
    let ctx = match ctx_for(meta, ctxs, asset) {
        Ok(c) => c,
        Err(e) => return Err(e),
    };
    match &ctx.mid_px {
        None => {
            let mut msg: Vec<char> = Vec::new();
            push_str(&mut msg, "midPx missing for ");
            push_str(&mut msg, asset);
            Err(VenueError::Other(string_from_chars(&msg)))
        },
        Some(raw) => match parse_decimal(raw.as_str()) {
            Ok(d) => Ok(d),
            Err(e) => Err(bad_decimal("midPx", raw.as_str(), e.as_str())),
        },
    }
}

/// Snapshot of `asset` from a `metaAndAssetCtxs` response observed at
/// `observed_at`: Hyperliquid funding on a 1-hour interval and the mid price.
/// The error is that of reading the funding rate when it fails, else that of
/// reading the mid price.
pub fn snapshot_from(meta: &Meta, ctxs: &[AssetCtx], asset: &str, observed_at: Timestamp) -> (r: Result<MarketSnapshot, VenueError>)
    ensures
        match r {
            Ok(snap) => {
                &&& snap.funding.venue == Venue::Hyperliquid
                &&& snap.funding.asset@ == asset@
                &&& snap.funding.interval_hours == 1
                &&& snap.funding.observed_at == observed_at
                &&& funding_outcome(*meta, ctxs@, asset@, Ok(snap.funding.rate))
                &&& mid_outcome(*meta, ctxs@, asset@, Ok(snap.mid_price))
            },
            Err(e) => if funding_readable(*meta, ctxs@, asset@) {
                mid_outcome(*meta, ctxs@, asset@, Err(e))
            } else {
                funding_outcome(*meta, ctxs@, asset@, Err(e))
            },
        },
{
    let rate = match extract_funding(meta, ctxs, asset) {
        Ok(d) => d,
        Err(e) => return Err(e),
    };
    let mid_price = match extract_mid_price(meta, ctxs, asset) {
        Ok(d) => d,
        Err(e) => return Err(e),
    };
    let mut name: Vec<char> = Vec::new();
    push_str(&mut name, asset);
    Ok(MarketSnapshot {
        funding: FundingRate {
            venue: Venue::Hyperliquid,
            asset: string_from_chars(&name),
            rate,
            interval_hours: 1,
            observed_at,
        },
        mid_price,
    })
}

// ---------------------------------------------------------------------------
// Orders
// ---------------------------------------------------------------------------

/// Name for `uuid::Uuid::parse_str`: the 128-bit value of the parsed id, or the
/// text of the parse error.
pub uninterp spec fn uuid_parse(s: Seq<char>) -> Result<u128, Seq<char>>;

/// Calls `uuid::Uuid::parse_str`; the error is converted to its display text.
#[verifier::external_body]
fn parse_uuid(s: &str) -> (r: Result<u128, String>)
    ensures
        match (r, uuid_parse(s@)) {
            (Ok(a), Ok(b)) => a == b,
            (Err(e), Err(t)) => e@ == t,
            _ => false,
        },
{
    match uuid::Uuid::parse_str(s) {
        Ok(u) => Ok(u.as_u128()),
        Err(e) => Err(e.to_string()),
    }
}

/// `16^n`.
pub open spec fn pow16(n: nat) -> int
    decreases n,
{
    if n == 0 {
        1
    } else {
        16 * pow16((n - 1) as nat)
    }
}

/// Lowercase hexadecimal digit of `d` (below 16).
pub open spec fn hex_char(d: nat) -> char {
    if d < 10 {
        crate::text::digit_char(d)
    } else if d == 10 {
        'a'
    } else if d == 11 {
        'b'
    } else if d == 12 {
        'c'
    } else if d == 13 {
        'd'
    } else if d == 14 {
        'e'
    } else {
        'f'
    }
}

/// The 32 lowercase hexadecimal digits of `id`, most significant first.
pub open spec fn uuid_hex(id: u128) -> Seq<char> {
    Seq::new(32, |i: int| hex_char(((id as int / pow16((31 - i) as nat)) % 16) as nat))
}

/// A UUID written as `uuid` displays it: its hex digits in groups of 8, 4, 4,
/// 4 and 12 joined by hyphens.
pub open spec fn uuid_text(id: u128) -> Seq<char> {
    let h = uuid_hex(id);
    h.subrange(0, 8) + "-"@ + h.subrange(8, 12) + "-"@ + h.subrange(12, 16) + "-"@ + h.subrange(16, 20) + "-"@ + h.subrange(20, 32)
}

/// Calls `<uuid::Uuid as Display>::fmt` (through `to_string`) on the UUID
/// with this 128-bit value: lowercase, hyphenated.
#[verifier::external_body]
fn uuid_to_string(id: u128) -> (r: String)
    ensures
        r@ == uuid_text(id),
{
    uuid::Uuid::from_u128(id).to_string()
}

/// Message of the error for an order or cancel without a signing wallet.
pub open spec fn no_signer_message() -> Seq<char> {
    "no signing wallet configured \u{2014} call with_signer()"@
}

/// The error for an order or cancel sent without a signing wallet.
pub fn missing_signer() -> (r: VenueError)
    ensures
        r matches VenueError::Auth(s) && s@ == no_signer_message(),
{
    let mut msg: Vec<char> = Vec::new();
    push_str(&mut msg, "no signing wallet configured \u{2014} call with_signer()");
    VenueError::Auth(string_from_chars(&msg))
}

/// The answer to a positions query: not wired yet.
pub fn positions_unavailable() -> (r: VenueError)
    ensures
        r matches VenueError::Other(s) && s@ == "not implemented"@,
{
    let mut msg: Vec<char> = Vec::new();
    push_str(&mut msg, "not implemented");
    VenueError::Other(string_from_chars(&msg))
}

/// What a cancel gives: no signing wallet is an `Auth` error; an order id that
/// is not a UUID is `Other(bad cloid {id:?}: {error})`; any other id is
/// `Other` too, as resting orders are not tracked yet.
pub open spec fn cancel_outcome(has_signer: bool, order_id: Seq<char>, r: VenueError) -> bool {
    if !has_signer {
        r matches VenueError::Auth(s) && s@ == no_signer_message()
    } else {
        match uuid_parse(order_id) {
            Err(e) => r matches VenueError::Other(s) && s@ == "bad cloid "@ + debug_quoted(order_id) + ": "@ + e,
            Ok(_) => r matches VenueError::Other(s) && s@ == "cancel_order: resting-order tracking not wired yet (Phase 3+)"@,
        }
    }
}

/// The error a cancel of `order_id` ends with (see `cancel_outcome`).
pub fn cancel_order_error(has_signer: bool, order_id: &str) -> (r: VenueError)
    ensures
        cancel_outcome(has_signer, order_id@, r),
{
    if !has_signer {
        return missing_signer();
    }
    match parse_uuid(order_id) {
        Err(e) => {
            let mut msg: Vec<char> = Vec::new();
            push_str(&mut msg, "bad cloid ");
            push_str(&mut msg, debug_quote(order_id).as_str());
            push_str(&mut msg, ": ");
            push_str(&mut msg, e.as_str());
            VenueError::Other(string_from_chars(&msg))
        },
        Ok(_) => {
            let mut msg: Vec<char> = Vec::new();
            push_str(&mut msg, "cancel_order: resting-order tracking not wired yet (Phase 3+)");
            VenueError::Other(string_from_chars(&msg))
        },
    }
}

/// How an order goes to the exchange: a reduce-only order closes the position
/// at market; any other opens at market, buying for a Long.
#[derive(Clone, Copy, Debug, PartialEq, Eq, Structural)]
pub enum OrderRoute {
    MarketClose,
    MarketOpen { is_buy: bool },
}

pub open spec fn spec_order_route(order: Order) -> OrderRoute {
    if order.reduce_only {
        OrderRoute::MarketClose
    } else {
        OrderRoute::MarketOpen { is_buy: order.side == Side::Long }
    }
}

/// The route of `order` (see `OrderRoute`).
pub fn order_route(order: &Order) -> (r: OrderRoute)
    ensures
        r == spec_order_route(*order),
{
    if order.reduce_only {
        OrderRoute::MarketClose
    } else {
        OrderRoute::MarketOpen { is_buy: order.side == Side::Long }
    }
}

/// What the exchange made of an order: accepted, refused with a message, or
/// the request failed with an error text.
#[derive(Debug)]
pub enum ExchangeOutcome {
    Accepted,
    Refused(String),
    Failed(String),
}

/// The result of placing an order: its client id as a UUID when accepted,
/// `Rejected(message)` when refused, `Other(sdk order: {error})` when the
/// request failed.
pub open spec fn order_result(order: Order, outcome: ExchangeOutcome, r: Result<String, VenueError>) -> bool {
    match outcome {
        ExchangeOutcome::Accepted => r matches Ok(s) && s@ == uuid_text(order.client_id),
        ExchangeOutcome::Refused(m) => r matches Err(VenueError::Rejected(s)) && s@ == m@,
        ExchangeOutcome::Failed(e) => r matches Err(VenueError::Other(s)) && s@ == "sdk order: "@ + e@,
    }
}

/// The result of placing `order` given what the exchange made of it.
pub fn placed_order(order: &Order, outcome: ExchangeOutcome) -> (r: Result<String, VenueError>)
    ensures
        order_result(*order, outcome, r),
{
    match outcome {
        ExchangeOutcome::Accepted => Ok(uuid_to_string(order.client_id)),
        ExchangeOutcome::Refused(m) => Err(VenueError::Rejected(m)),
        ExchangeOutcome::Failed(e) => {
            let mut msg: Vec<char> = Vec::new();
            push_str(&mut msg, "sdk order: ");
            push_str(&mut msg, e.as_str());
            Err(VenueError::Other(string_from_chars(&msg)))
        },
    }
}

} // verus!
