use perps_trade::decimal::Dec;
use perps_trade::executor::{Fill, FillIntent};
use perps_trade::jsonl::LogLine;
use perps_trade::pnl::{accrued_funding, latest_mids, pair_fills, read_fills, read_funding, LoggedFunding};
use perps_trade::types::{Side, Timestamp, Venue};

fn d(m: i128, s: u32) -> Dec {
    Dec::new(m, s)
}

fn at(secs: i64) -> Timestamp {
    Timestamp { secs, nanos: 0 }
}

fn fill(asset: &str, intent: FillIntent, side: Side, price: Dec, size: Dec, secs: i64) -> Fill {
    Fill {
        venue: Venue::Hyperliquid,
        asset: asset.into(),
        side,
        size,
        price,
        notional_usd: price.checked_mul(size).unwrap(),
        fees_usd: Dec::zero(),
        filled_at: at(secs),
        intent,
        order_id: 0,
    }
}

fn obs(asset: &str, rate: Dec, secs: i64) -> LoggedFunding {
    LoggedFunding { asset: asset.into(), rate, interval_hours: 1, observed_at: at(secs), mid_price: Some(d(100, 0)) }
}

#[test]
fn pairs_open_then_close() {
    let fills = vec![
        fill("BTC", FillIntent::Open, Side::Short, d(100, 0), d(1, 0), 0),
        fill("BTC", FillIntent::Close, Side::Long, d(98, 0), d(1, 0), 100),
    ];
    let (closed, open) = pair_fills(&fills);
    assert_eq!(closed.len(), 1);
    assert!(open.is_empty());
    assert_eq!(closed[0].realized_pnl(), d(2, 0)); // Short opened at 100, closed at 98 -> +2
}

#[test]
fn unmatched_open_becomes_open_trade() {
    let fills = vec![fill("BTC", FillIntent::Open, Side::Short, d(100, 0), d(1, 0), 0)];
    let (closed, open) = pair_fills(&fills);
    assert!(closed.is_empty());
    assert_eq!(open.len(), 1);
    // Unrealized: mid 102 vs entry 100, Short -> -2.
    assert_eq!(open[0].unrealized_pnl(d(102, 0)), d(-2, 0));
}

#[test]
fn pairs_per_asset_independently() {
    let fills = vec![
        fill("BTC", FillIntent::Open, Side::Short, d(100, 0), d(1, 0), 0),
        fill("ETH", FillIntent::Open, Side::Long, d(50, 0), d(2, 0), 5),
        fill("BTC", FillIntent::Close, Side::Long, d(99, 0), d(1, 0), 10),
    ];
    let (closed, open) = pair_fills(&fills);
    assert_eq!(closed.len(), 1);
    assert_eq!(closed[0].asset, "BTC");
    assert_eq!(open.len(), 1);
    assert_eq!(open[0].asset, "ETH");
}

#[test]
fn realized_pnl_long_profit() {
    let fills = vec![
        fill("BTC", FillIntent::Open, Side::Long, d(100, 0), d(2, 0), 0),
        fill("BTC", FillIntent::Close, Side::Short, d(110, 0), d(2, 0), 100),
    ];
    let (closed, _) = pair_fills(&fills);
    assert_eq!(closed[0].realized_pnl(), d(20, 0)); // (110-100) * 2
}

#[test]
fn funding_accrual_short_with_positive_rate_earns() {
    let observations = vec![obs("BTC", d(1, 2), 0)];
    let pnl = accrued_funding("BTC", Side::Short, d(1000, 0), at(0), at(3600), &observations);
    assert_eq!(pnl, d(10, 0));
}

#[test]
fn funding_accrual_long_with_positive_rate_pays() {
    let observations = vec![obs("BTC", d(1, 2), 0)];
    let pnl = accrued_funding("BTC", Side::Long, d(1000, 0), at(0), at(3600), &observations);
    assert_eq!(pnl, d(-10, 0)); // Long pays positive funding
}

#[test]
fn funding_accrual_step_integrates_changing_rate() {
    let observations = vec![obs("BTC", d(1, 2), 0), obs("BTC", d(2, 2), 1800)];
    let pnl = accrued_funding("BTC", Side::Short, d(1000, 0), at(0), at(3600), &observations);
    assert_eq!(pnl, d(15, 0));
}

#[test]
fn funding_accrual_ignores_other_assets() {
    let observations = vec![obs("ETH", d(1, 2), 0)];
    let pnl = accrued_funding("BTC", Side::Short, d(1000, 0), at(0), at(3600), &observations);
    assert_eq!(pnl, Dec::zero());
}

#[test]
fn latest_mids_takes_most_recent_per_asset() {
    let obs = vec![
        LoggedFunding { asset: "BTC".into(), rate: d(1, 4), interval_hours: 1, observed_at: at(0), mid_price: Some(d(60000, 0)) },
        LoggedFunding { asset: "BTC".into(), rate: d(1, 4), interval_hours: 1, observed_at: at(100), mid_price: Some(d(60500, 0)) },
        LoggedFunding { asset: "ETH".into(), rate: d(1, 4), interval_hours: 1, observed_at: at(50), mid_price: Some(d(3000, 0)) },
    ];
    let mids = latest_mids(&obs);
    assert_eq!(mids.get("BTC"), Some(d(60500, 0)));
    assert_eq!(mids.get("ETH"), Some(d(3000, 0)));
}

#[test]
fn funding_accrual_is_zero_for_empty_window() {
    let observations = vec![obs("BTC", d(1, 2), 0)];
    assert_eq!(accrued_funding("BTC", Side::Short, d(1000, 0), at(3600), at(3600), &observations), Dec::zero());
    assert_eq!(accrued_funding("BTC", Side::Short, d(1000, 0), at(3600), at(0), &observations), Dec::zero());
}

#[test]
fn funding_accrual_falls_back_to_prior_rate() {
    // Only an observation before the window: its rate applies to the whole window.
    let observations = vec![obs("BTC", d(1, 2), 0)];
    let pnl = accrued_funding("BTC", Side::Short, d(1000, 0), at(3600), at(7200), &observations);
    assert_eq!(pnl, d(10, 0));
}

#[test]
fn funding_accrual_sides_are_opposite() {
    let observations = vec![obs("BTC", d(1, 2), 0), obs("BTC", d(-3, 3), 1800)];
    let short = accrued_funding("BTC", Side::Short, d(1000, 0), at(0), at(5400), &observations);
    let long = accrued_funding("BTC", Side::Long, d(1000, 0), at(0), at(5400), &observations);
    assert_eq!(short, long.neg());
    // 0.01 * 1000 * 0.5 + (-0.003) * 1000 * 1 = 5 - 3 = 2
    assert_eq!(short, d(2, 0));
}

#[test]
fn latest_mids_keys_are_uppercased_and_ties_keep_first() {
    let obs = vec![
        LoggedFunding { asset: "btc".into(), rate: d(1, 4), interval_hours: 1, observed_at: at(10), mid_price: Some(d(1, 0)) },
        LoggedFunding { asset: "BTC".into(), rate: d(1, 4), interval_hours: 1, observed_at: at(10), mid_price: Some(d(2, 0)) },
        LoggedFunding { asset: "ETH".into(), rate: d(1, 4), interval_hours: 1, observed_at: at(10), mid_price: None },
    ];
    let mids = latest_mids(&obs);
    assert_eq!(mids.get("BTC"), Some(d(1, 0)));
    assert_eq!(mids.get("btc"), None);
    assert_eq!(mids.get("ETH"), None);
}

#[test]
fn second_open_replaces_first_and_orphan_close_is_dropped() {
    let fills = vec![
        fill("BTC", FillIntent::Close, Side::Long, d(99, 0), d(1, 0), 0),
        fill("BTC", FillIntent::Open, Side::Short, d(100, 0), d(1, 0), 1),
        fill("btc", FillIntent::Open, Side::Short, d(101, 0), d(1, 0), 2),
        fill("BTC", FillIntent::Close, Side::Long, d(97, 0), d(1, 0), 3),
    ];
    let (closed, open) = pair_fills(&fills);
    assert!(open.is_empty());
    assert_eq!(closed.len(), 1);
    assert_eq!(closed[0].open.price, d(101, 0));
    assert_eq!(closed[0].realized_pnl(), d(4, 0));
}

#[test]
fn read_fills_skips_bad_lines_and_sorts_by_time() {
    let lines = vec![
        LogLine::Record(fill("BTC", FillIntent::Close, Side::Long, d(98, 0), d(1, 0), 100)),
        LogLine::Blank,
        LogLine::Malformed,
        LogLine::Record(fill("BTC", FillIntent::Open, Side::Short, d(100, 0), d(1, 0), 0)),
    ];
    let fills = read_fills(lines);
    assert_eq!(fills.len(), 2);
    assert_eq!(fills[0].intent, FillIntent::Open);
    assert_eq!(fills[1].intent, FillIntent::Close);
}

#[test]
fn read_funding_sorts_stably() {
    let lines = vec![
        LogLine::Record(obs("ETH", d(1, 2), 50)),
        LogLine::Record(obs("BTC", d(2, 2), 10)),
        LogLine::Record(obs("SOL", d(3, 2), 10)),
    ];
    let o = read_funding(lines);
    assert_eq!(o[0].asset, "BTC");
    assert_eq!(o[1].asset, "SOL");
    assert_eq!(o[2].asset, "ETH");
}

#[test]
fn funding_accrual_long_at_zero_rate_is_negative_zero() {
    // The Long side negates a zero magnitude: the result is zero with its sign bit set.
    let observations = vec![obs("BTC", Dec::zero(), 0)];
    let long = accrued_funding("BTC", Side::Long, d(1000, 0), at(0), at(3600), &observations);
    assert!(long.is_zero());
    assert!(long.is_sign_negative());
    let short = accrued_funding("BTC", Side::Short, d(1000, 0), at(0), at(3600), &observations);
    assert!(short.is_zero());
    assert!(!short.is_sign_negative());
    // An empty window gives a plain zero on either side.
    let empty = accrued_funding("BTC", Side::Long, d(1000, 0), at(3600), at(3600), &observations);
    assert!(!empty.is_sign_negative());
}

#[test]
fn unrealized_pnl_is_zero_at_entry_price() {
    let fills = vec![fill("BTC", FillIntent::Open, Side::Long, d(100, 0), d(2, 0), 0)];
    let (_, open) = pair_fills(&fills);
    let u = open[0].unrealized_pnl(d(1000, 1));
    assert!(u.is_zero());
    assert!(!u.is_sign_negative());
}
